//! Task tables: the tasks that a table lists, and the chart and the table of their schedule.
use vstd::prelude::*;

use crate::csv_key_diff::CsvData;
use crate::ordering::is_before;
use crate::csv_text::write_csv;
use crate::schedule_model::{Phase, PhaseKind, Schedule, ScheduleEntry, Task};
use crate::schedule_search::optimize_schedule;
use crate::text::{
    chars_of, pad_right, parse_number, part, position_of, repeat, same_text, split_at,
    string_between, to_decimal, trim,
};

verus! {

use crate::csv_key_diff::CsvModel;
use crate::ordering::{text_before, text_before_total};
use crate::csv_text::{records_text, uneven_record};
use crate::schedule_laws::{best_schedule_is_best, is_valid};
use crate::schedule_model::{
    best_of, dependencies_in_range, entries_in_range, explore, failure_text, initial_state,
    start_autos, task_models, weight, ScheduleFailure, ScheduleModel, TaskModel,
};
use crate::schedule_search::{total_weight, weights_fit};
use crate::text::{
    decimal, first_place, first_place_is_first, number_error_text, number_value, number_value_bounds, padded_right,
    parted, repeated, split, split_has_a_piece, text_rows, text_rows_push, texts, texts_push,
    trimmed,
};

/// How many tasks a table may list.
pub const MAX_TASKS: usize = 15;

/// How many columns a chart has.
pub const GANTT_WIDTH: usize = 60;

impl PhaseKind {
    pub fn as_str(self) -> (text: &'static str)
        ensures
            text@ == kind_text(self),
    {
        match self {
            PhaseKind::Manual => "manual",
            PhaseKind::Auto => "auto",
        }
    }
}

/// The name of a kind of phase.
pub open spec fn kind_text(kind: PhaseKind) -> Seq<char> {
    match kind {
        PhaseKind::Manual => "manual"@,
        PhaseKind::Auto => "auto"@,
    }
}

/// The words "row" and the number of the row, counted from one.
pub open spec fn row_name(row_index: int) -> Seq<char> {
    "row "@ + decimal((row_index + 1) as nat)
}

fn name_row(row_index: usize) -> (text: String)
    requires
        row_index < usize::MAX,
    ensures
        text@ == row_name(row_index as int),
{
    let mut text = "row ".to_owned();
    text.append(to_decimal((row_index + 1) as u64).as_str());
    text
}

/// The message of a column that is missing.
pub open spec fn missing_column_text(name: Seq<char>) -> Seq<char> {
    "task CSV is missing required column: "@ + name
}

/// The place of the column.
pub fn find_column_index(headers: &Vec<String>, name: &str) -> (result: Result<usize, String>)
    ensures
        match result {
            Ok(index) => index < headers@.len() && index == first_place(texts(headers@), name@),
            Err(message) => !texts(headers@).contains(name@) && message@ == missing_column_text(
                name@,
            ),
        },
{
    match position_of(headers, name) {
        Some(index) => Ok(index),
        None => {
            let mut message = "task CSV is missing required column: ".to_owned();
            message.append(name);
            Err(message)
        },
    }
}

/// The value of the row in a column, or the message that it is missing.
pub open spec fn cell_of(
    row: Seq<Seq<char>>,
    index: int,
    name: Seq<char>,
    row_index: int,
) -> Result<Seq<char>, Seq<char>> {
    if index < row.len() {
        Ok(row[index])
    } else {
        Err(row_name(row_index) + " is missing column "@ + name)
    }
}

/// The value of the row in a column.
pub fn cell<'a>(row: &'a Vec<String>, index: usize, name: &str, row_index: usize) -> (result: Result<
    &'a str,
    String,
>)
    requires
        row_index < usize::MAX,
    ensures
        match result {
            Ok(value) => cell_of(texts(row@), index as int, name@, row_index as int) == Ok::<
                Seq<char>,
                Seq<char>,
            >(value@),
            Err(message) => cell_of(texts(row@), index as int, name@, row_index as int) == Err::<
                Seq<char>,
                Seq<char>,
            >(message@),
        },
{
    if index < row.len() {
        Ok(row[index].as_str())
    } else {
        let mut message = name_row(row_index);
        message.append(" is missing column ");
        message.append(name);
        Err(message)
    }
}

/// The texts of the list, trimmed, without those that are then empty.
pub open spec fn kept_names(pieces: Seq<Seq<char>>) -> Seq<Seq<char>>
    decreases pieces.len(),
{
    if pieces.len() == 0 {
        Seq::empty()
    } else {
        let before = kept_names(pieces.drop_last());
        let name = trimmed(pieces.last());
        if name.len() == 0 {
            before
        } else {
            before.push(name)
        }
    }
}

/// The names between the semicolons.
pub fn parse_dependencies(value: &str) -> (names: Vec<String>)
    ensures
        texts(names@) == kept_names(split(value@, ';')),
{
    let pieces = split_at(value, ';');
    let ghost all = texts(pieces@);
    let mut names: Vec<String> = Vec::new();
    for i in 0..pieces.len()
        invariant
            all == texts(pieces@),
            texts(names@) == kept_names(all.take(i as int)),
    {
        assert(all.take(i + 1).drop_last() == all.take(i as int));
        let name = trim(pieces[i].as_str());
        if !name.as_str().is_empty() {
            proof {
                texts_push(names@, name);
            }
            names.push(name);
        }
    }
    assert(all.take(all.len() as int) == all);
    names
}

/// The kind of phase that a word stands for.
pub open spec fn kind_of(word: Seq<char>) -> Option<PhaseKind> {
    if word == "manual"@ || word == "m"@ {
        Some(PhaseKind::Manual)
    } else if word == "auto"@ || word == "a"@ {
        Some(PhaseKind::Auto)
    } else {
        None
    }
}

/// The phase that a text stands for, or why it stands for none.
pub open spec fn phase_of(text: Seq<char>, row_index: int) -> Result<Phase, Seq<char>> {
    match parted(trimmed(text), ':') {
        None => Err(
            row_name(row_index)
                + " phases must use manual:MINUTES (m:MINUTES) or auto:MINUTES (a:MINUTES)"@,
        ),
        Some((word, duration)) => match kind_of(trimmed(word)) {
            None => Err(row_name(row_index) + " has unsupported phase type: "@ + trimmed(word)),
            Some(kind) => match number_value(trimmed(duration), 10, u64::MAX as int) {
                Err(error) => Err(
                    row_name(row_index) + " has invalid phase duration: "@ + number_error_text(
                        error,
                    ),
                ),
                Ok(minutes) => if minutes == 0 {
                    Err(row_name(row_index) + " phase duration must be greater than zero"@)
                } else {
                    Ok(Phase { kind, duration_minutes: minutes as u64 })
                },
            },
        },
    }
}

fn parse_phase(text: &str, row_index: usize) -> (result: Result<Phase, String>)
    requires
        row_index < usize::MAX,
    ensures
        match result {
            Ok(phase) => phase_of(text@, row_index as int) == Ok::<Phase, Seq<char>>(phase),
            Err(message) => phase_of(text@, row_index as int) == Err::<Phase, Seq<char>>(
                message@,
            ),
        },
{
    let mut message = name_row(row_index);
    let trimmed_text = trim(text);
    let (word, duration) = match part(trimmed_text.as_str(), ':') {
        None => {
            message.append(
                " phases must use manual:MINUTES (m:MINUTES) or auto:MINUTES (a:MINUTES)",
            );
            return Err(message);
        },
        Some(parts) => parts,
    };
    let word = trim(word.as_str());
    let kind = if same_text(word.as_str(), "manual") || same_text(word.as_str(), "m") {
        PhaseKind::Manual
    } else if same_text(word.as_str(), "auto") || same_text(word.as_str(), "a") {
        PhaseKind::Auto
    } else {
        message.append(" has unsupported phase type: ");
        message.append(word.as_str());
        return Err(message);
    };
    let duration_minutes = match parse_number(trim(duration.as_str()).as_str(), 10, u64::MAX) {
        Err(error) => {
            message.append(" has invalid phase duration: ");
            message.append(error.as_str());
            return Err(message);
        },
        Ok(minutes) => minutes,
    };
    if duration_minutes == 0 {
        message.append(" phase duration must be greater than zero");
        return Err(message);
    }
    Ok(Phase { kind, duration_minutes })
}

/// The phases that the texts stand for, or why the first that stands for none does not.
pub open spec fn phases_of(pieces: Seq<Seq<char>>, row_index: int) -> Result<
    Seq<Phase>,
    Seq<char>,
>
    decreases pieces.len(),
{
    if pieces.len() == 0 {
        Ok(Seq::empty())
    } else {
        match phases_of(pieces.drop_last(), row_index) {
            Err(message) => Err(message),
            Ok(before) => match phase_of(pieces.last(), row_index) {
                Err(message) => Err(message),
                Ok(phase) => Ok(before.push(phase)),
            },
        }
    }
}

/// Whether no two phases that follow each other are of one kind.
pub open spec fn phases_alternate(phases: Seq<Phase>) -> bool {
    forall|i: int, j: int|
        0 <= i < phases.len() && j == i + 1 && j < phases.len() ==> (#[trigger] phases[i]).kind
            != (#[trigger] phases[j]).kind
}

/// The phases that the value of a row stands for, or why it stands for none.
pub open spec fn phase_list_of(value: Seq<char>, row_index: int) -> Result<
    Seq<Phase>,
    Seq<char>,
> {
    match phases_of(split(value, '|'), row_index) {
        Err(message) => Err(message),
        Ok(phases) => if phases_alternate(phases) {
            Ok(phases)
        } else {
            Err(row_name(row_index) + " phases must alternate between manual and auto"@)
        },
    }
}

proof fn phases_of_stops(pieces: Seq<Seq<char>>, count: int, row_index: int)
    requires
        0 <= count <= pieces.len(),
        phases_of(pieces.take(count), row_index) is Err,
    ensures
        phases_of(pieces, row_index) == phases_of(pieces.take(count), row_index),
    decreases pieces.len() - count,
{
    if count < pieces.len() {
        assert(pieces.take(count + 1).drop_last() == pieces.take(count));
        phases_of_stops(pieces, count + 1, row_index);
    } else {
        assert(pieces.take(count) == pieces);
    }
}

/// A list of texts that all stand for phases stands for as many, none of which takes no time.
pub proof fn phases_take_time(pieces: Seq<Seq<char>>, row_index: int)
    ensures
        phases_of(pieces, row_index) matches Ok(phases) ==> {
            &&& phases.len() == pieces.len()
            &&& forall|i: int|
                0 <= i < phases.len() ==> (#[trigger] phases[i]).duration_minutes > 0
        },
    decreases pieces.len(),
{
    if pieces.len() > 0 {
        phases_take_time(pieces.drop_last(), row_index);
        if let Some((_, duration)) = parted(trimmed(pieces.last()), ':') {
            number_value_bounds(trimmed(duration), 10, u64::MAX as int);
        }
    }
}

/// The phases between the vertical bars.
pub fn parse_phases(value: &str, row_index: usize) -> (result: Result<Vec<Phase>, String>)
    requires
        row_index < usize::MAX,
    ensures
        match result {
            Ok(phases) => phase_list_of(value@, row_index as int) == Ok::<
                Seq<Phase>,
                Seq<char>,
            >(phases@),
            Err(message) => phase_list_of(value@, row_index as int) == Err::<
                Seq<Phase>,
                Seq<char>,
            >(message@),
        },
{
    let pieces = split_at(value, '|');
    let ghost all = texts(pieces@);
    let mut phases: Vec<Phase> = Vec::new();
    for i in 0..pieces.len()
        invariant
            row_index < usize::MAX,
            all == texts(pieces@),
            all == split(value@, '|'),
            phases_of(all.take(i as int), row_index as int) == Ok::<Seq<Phase>, Seq<char>>(
                phases@,
            ),
    {
        let ghost upto = all.take(i + 1);
        assert(upto.drop_last() == all.take(i as int));
        assert(upto.last() == pieces@[i as int]@);
        match parse_phase(pieces[i].as_str(), row_index) {
            Err(message) => {
                proof {
                    phases_of_stops(all, i + 1, row_index as int);
                }
                return Err(message);
            },
            Ok(phase) => {
                phases.push(phase);
            },
        }
    }
    assert(all.take(all.len() as int) == all);
    let mut i: usize = 1;
    while i < phases.len()
        invariant
            1 <= i,
            phases_of(split(value@, '|'), row_index as int) == Ok::<Seq<Phase>, Seq<char>>(
                phases@,
            ),
            row_index < usize::MAX,
            forall|k: int, l: int|
                0 <= k && l == k + 1 && l < i && l < phases@.len() ==> (#[trigger] phases@[k]).kind
                    != (#[trigger] phases@[l]).kind,
        decreases phases.len() - i,
    {
        if phases[i - 1].kind == phases[i].kind {
            assert(phases@[i - 1].kind == phases@[i as int].kind);
            let mut message = name_row(row_index);
            message.append(" phases must alternate between manual and auto");
            return Err(message);
        }
        i = i + 1;
    }
    Ok(phases)
}

/// A task as its row says it, with the names of those it depends on.
pub struct RawTask {
    pub id: String,
    pub priority: u8,
    pub dependencies: Vec<String>,
    pub phases: Vec<Phase>,
}

/// What a [`RawTask`] says.
#[verifier::ext_equal]
pub struct RawModel {
    pub id: Seq<char>,
    pub priority: u8,
    pub dependencies: Seq<Seq<char>>,
    pub phases: Seq<Phase>,
}

impl View for RawTask {
    type V = RawModel;

    open spec fn view(&self) -> RawModel {
        RawModel {
            id: self.id@,
            priority: self.priority,
            dependencies: texts(self.dependencies@),
            phases: self.phases@,
        }
    }
}

/// What a list of raw tasks says.
pub open spec fn raw_models(tasks: Seq<RawTask>) -> Seq<RawModel> {
    Seq::new(tasks.len(), |i: int| tasks[i]@)
}

/// The ids of the tasks.
pub open spec fn ids_of(tasks: Seq<RawModel>) -> Seq<Seq<char>> {
    Seq::new(tasks.len(), |i: int| tasks[i].id)
}

/// The places of the columns of a task table.
pub struct TaskColumns {
    pub id: usize,
    pub priority: usize,
    pub dependencies: usize,
    pub phases: usize,
}

/// The places of the columns of a task table, or which is missing.
pub open spec fn columns_of(headers: Seq<Seq<char>>) -> Result<TaskColumns, Seq<char>> {
    if !headers.contains("id"@) {
        Err(missing_column_text("id"@))
    } else if !headers.contains("priority"@) {
        Err(missing_column_text("priority"@))
    } else if !headers.contains("dependencies"@) {
        Err(missing_column_text("dependencies"@))
    } else if !headers.contains("phases"@) {
        Err(missing_column_text("phases"@))
    } else {
        Ok(
            TaskColumns {
                id: first_place(headers, "id"@) as usize,
                priority: first_place(headers, "priority"@) as usize,
                dependencies: first_place(headers, "dependencies"@) as usize,
                phases: first_place(headers, "phases"@) as usize,
            },
        )
    }
}

fn find_columns(headers: &Vec<String>) -> (result: Result<TaskColumns, String>)
    ensures
        match result {
            Ok(columns) => columns_of(texts(headers@)) == Ok::<TaskColumns, Seq<char>>(columns),
            Err(message) => columns_of(texts(headers@)) == Err::<TaskColumns, Seq<char>>(
                message@,
            ),
        },
{
    let ghost all = texts(headers@);
    proof {
        first_place_is_first(all, "id"@);
        first_place_is_first(all, "priority"@);
        first_place_is_first(all, "dependencies"@);
        first_place_is_first(all, "phases"@);
    }
    let id = match find_column_index(headers, "id") {
        Ok(index) => index,
        Err(message) => {
            return Err(message);
        },
    };
    let priority = match find_column_index(headers, "priority") {
        Ok(index) => index,
        Err(message) => {
            return Err(message);
        },
    };
    let dependencies = match find_column_index(headers, "dependencies") {
        Ok(index) => index,
        Err(message) => {
            return Err(message);
        },
    };
    let phases = match find_column_index(headers, "phases") {
        Ok(index) => index,
        Err(message) => {
            return Err(message);
        },
    };
    Ok(TaskColumns { id, priority, dependencies, phases })
}

/// The task of a row, or why it has none.
pub open spec fn raw_task_of(
    row: Seq<Seq<char>>,
    columns: TaskColumns,
    row_index: int,
) -> Result<RawModel, Seq<char>> {
    match cell_of(row, columns.id as int, "id"@, row_index) {
        Err(message) => Err(message),
        Ok(id) => if trimmed(id).len() == 0 {
            Err(row_name(row_index) + " column id must not be empty"@)
        } else {
            match cell_of(row, columns.priority as int, "priority"@, row_index) {
                Err(message) => Err(message),
                Ok(priority) => match number_value(trimmed(priority), 10, u8::MAX as int) {
                    Err(error) => Err(number_error_text(error)),
                    Ok(priority) => if !(1 <= priority <= 5) {
                        Err(row_name(row_index) + " priority must be between 1 and 5"@)
                    } else {
                        rest_of_raw_task(row, columns, row_index, trimmed(id), priority as u8)
                    },
                },
            }
        },
    }
}

/// The task of a row with the given id and priority, or why it has none.
pub open spec fn rest_of_raw_task(
    row: Seq<Seq<char>>,
    columns: TaskColumns,
    row_index: int,
    id: Seq<char>,
    priority: u8,
) -> Result<RawModel, Seq<char>> {
    match cell_of(row, columns.dependencies as int, "dependencies"@, row_index) {
        Err(message) => Err(message),
        Ok(dependencies) => match cell_of(row, columns.phases as int, "phases"@, row_index) {
            Err(message) => Err(message),
            Ok(phases) => match phase_list_of(phases, row_index) {
                Err(message) => Err(message),
                Ok(phases) => Ok(
                    RawModel {
                        id,
                        priority,
                        dependencies: kept_names(split(dependencies, ';')),
                        phases,
                    },
                ),
            },
        },
    }
}

fn parse_raw_task(row: &Vec<String>, columns: &TaskColumns, row_index: usize) -> (result: Result<
    RawTask,
    String,
>)
    requires
        row_index < usize::MAX,
    ensures
        match result {
            Ok(task) => raw_task_of(texts(row@), *columns, row_index as int) == Ok::<
                RawModel,
                Seq<char>,
            >(task@),
            Err(message) => raw_task_of(texts(row@), *columns, row_index as int) == Err::<
                RawModel,
                Seq<char>,
            >(message@),
        },
{
    let id = match cell(row, columns.id, "id", row_index) {
        Ok(value) => trim(value),
        Err(message) => {
            return Err(message);
        },
    };
    if id.as_str().is_empty() {
        let mut message = name_row(row_index);
        message.append(" column id must not be empty");
        return Err(message);
    }
    let priority_text = match cell(row, columns.priority, "priority", row_index) {
        Ok(value) => trim(value),
        Err(message) => {
            return Err(message);
        },
    };
    let priority = match parse_number(priority_text.as_str(), 10, u8::MAX as u64) {
        Ok(value) => value as u8,
        Err(message) => {
            return Err(message);
        },
    };
    if !(1 <= priority && priority <= 5) {
        let mut message = name_row(row_index);
        message.append(" priority must be between 1 and 5");
        return Err(message);
    }
    let dependencies = match cell(row, columns.dependencies, "dependencies", row_index) {
        Ok(value) => parse_dependencies(value),
        Err(message) => {
            return Err(message);
        },
    };
    let phases_text = match cell(row, columns.phases, "phases", row_index) {
        Ok(value) => value,
        Err(message) => {
            return Err(message);
        },
    };
    match parse_phases(phases_text, row_index) {
        Ok(phases) => Ok(RawTask { id, priority, dependencies, phases }),
        Err(message) => Err(message),
    }
}

/// The tasks of the rows, or why the first row without one has none.
pub open spec fn raw_tasks_of(rows: Seq<Seq<Seq<char>>>, columns: TaskColumns) -> Result<
    Seq<RawModel>,
    Seq<char>,
>
    decreases rows.len(),
{
    if rows.len() == 0 {
        Ok(Seq::empty())
    } else {
        match raw_tasks_of(rows.drop_last(), columns) {
            Err(message) => Err(message),
            Ok(before) => match raw_task_of(rows.last(), columns, rows.len() - 1) {
                Err(message) => Err(message),
                Ok(task) => Ok(before.push(task)),
            },
        }
    }
}

proof fn raw_tasks_of_stops(rows: Seq<Seq<Seq<char>>>, count: int, columns: TaskColumns)
    requires
        0 <= count <= rows.len(),
        raw_tasks_of(rows.take(count), columns) is Err,
    ensures
        raw_tasks_of(rows, columns) == raw_tasks_of(rows.take(count), columns),
    decreases rows.len() - count,
{
    if count < rows.len() {
        assert(rows.take(count + 1).drop_last() == rows.take(count));
        raw_tasks_of_stops(rows, count + 1, columns);
    } else {
        assert(rows.take(count) == rows);
    }
}

/// The list with one task more, before all whose ids come after its id.
pub open spec fn placed(list: Seq<RawModel>, task: RawModel) -> Seq<RawModel>
    decreases list.len(),
{
    if list.len() > 0 && text_before(task.id, list.last().id) {
        placed(list.drop_last(), task).push(list.last())
    } else {
        list.push(task)
    }
}

/// The tasks in the order of their ids.
pub open spec fn sorted_by_id(tasks: Seq<RawModel>) -> Seq<RawModel>
    decreases tasks.len(),
{
    if tasks.len() == 0 {
        tasks
    } else {
        placed(sorted_by_id(tasks.drop_last()), tasks.last())
    }
}

proof fn placed_at(list: Seq<RawModel>, task: RawModel, place: int)
    requires
        0 <= place <= list.len(),
        forall|k: int| place <= k < list.len() ==> text_before(task.id, (#[trigger] list[k]).id),
        place > 0 ==> !text_before(task.id, list[place - 1].id),
    ensures
        placed(list, task) == list.insert(place, task),
    decreases list.len(),
{
    if place < list.len() {
        let rest = list.drop_last();
        placed_at(rest, task, place);
        assert(rest.insert(place, task).push(list.last()) == list.insert(place, task));
    } else {
        if list.len() > 0 {
            assert(list.last() == list[place - 1]);
        }
        assert(list.insert(place, task) == list.push(task));
    }
}

/// The tasks are in the order of their ids, and they are the same tasks.
pub proof fn sorted_by_id_is_sorted(tasks: Seq<RawModel>)
    ensures
        sorted_by_id(tasks).to_multiset() == tasks.to_multiset(),
        ids_in_order(sorted_by_id(tasks)),
    decreases tasks.len(),
{
    if tasks.len() > 0 {
        let rest = tasks.drop_last();
        sorted_by_id_is_sorted(rest);
        placed_keeps_order(sorted_by_id(rest), tasks.last());
        assert(tasks == rest.push(tasks.last()));
        vstd::seq_lib::to_multiset_build(rest, tasks.last());
    }
}

/// No id comes before the id of an earlier task.
pub open spec fn ids_in_order(tasks: Seq<RawModel>) -> bool {
    forall|i: int, j: int|
        0 <= i < j < tasks.len() ==> !text_before(
            (#[trigger] tasks[j]).id,
            (#[trigger] tasks[i]).id,
        )
}

proof fn placed_keeps_order(list: Seq<RawModel>, task: RawModel)
    requires
        ids_in_order(list),
    ensures
        ids_in_order(placed(list, task)),
        placed(list, task).to_multiset() == list.to_multiset().insert(task),
        placed(list, task).len() == list.len() + 1,
        forall|k: int|
            0 <= k < placed(list, task).len() ==> #[trigger] placed(list, task)[k] == task
                || list.contains(placed(list, task)[k]),
    decreases list.len(),
{
    let result = placed(list, task);
    if list.len() > 0 && text_before(task.id, list.last().id) {
        let rest = list.drop_last();
        let last = list.last();
        placed_keeps_order(rest, task);
        let before = placed(rest, task);
        assert forall|i: int, j: int| 0 <= i < j < result.len() implies !text_before(
            (#[trigger] result[j]).id,
            (#[trigger] result[i]).id,
        ) by {
            if j == before.len() {
                assert(before[i] == task || rest.contains(before[i]));
                if before[i] == task {
                    text_before_total(task.id, last.id);
                } else {
                    let m = choose|m: int| 0 <= m < rest.len() && rest[m] == before[i];
                    assert(list[m] == before[i]);
                    assert(list[list.len() - 1] == last);
                }
            } else {
                assert(before[i] == result[i] && before[j] == result[j]);
            }
        }
        assert forall|k: int| 0 <= k < result.len() implies #[trigger] result[k] == task
            || list.contains(result[k]) by {
            if k < before.len() {
                assert(before[k] == task || rest.contains(before[k]));
                if rest.contains(before[k]) {
                    let m = choose|m: int| 0 <= m < rest.len() && rest[m] == before[k];
                    assert(list[m] == result[k]);
                }
            } else {
                assert(list[list.len() - 1] == result[k]);
            }
        }
        vstd::seq_lib::to_multiset_build(before, last);
        assert(list == rest.push(last));
        vstd::seq_lib::to_multiset_build(rest, last);
        assert(rest.to_multiset().insert(task).insert(last) =~= rest.to_multiset().insert(
            last,
        ).insert(task));
    } else {
        vstd::seq_lib::to_multiset_build(list, task);
        assert forall|i: int, j: int| 0 <= i < j < result.len() implies !text_before(
            (#[trigger] result[j]).id,
            (#[trigger] result[i]).id,
        ) by {
            if j < list.len() {
                assert(list[i] == result[i] && list[j] == result[j]);
            } else {
                let last = list[list.len() - 1];
                if i < list.len() - 1 {
                    assert(!text_before(last.id, list[i].id));
                    text_before_total(task.id, list[i].id);
                    text_before_total(last.id, list[i].id);
                    if text_before(task.id, list[i].id) {
                        if list[i].id == last.id {
                        } else {
                            crate::ordering::text_before_transitive(
                                task.id,
                                list[i].id,
                                last.id,
                            );
                        }
                    }
                }
            }
        }
        assert forall|k: int| 0 <= k < result.len() implies #[trigger] result[k] == task
            || list.contains(result[k]) by {
            if k < list.len() {
                assert(list[k] == result[k]);
            }
        }
    }
}

/// Puts the task before all whose ids come after its id.
fn place(list: &mut Vec<RawTask>, task: RawTask)
    ensures
        raw_models(final(list)@) == placed(raw_models(old(list)@), task@),
{
    let ghost models = raw_models(list@);
    let mut at: usize = list.len();
    while at > 0 && is_before(task.id.as_str(), list[at - 1].id.as_str())
        invariant
            models == raw_models(list@),
            at <= list@.len(),
            forall|k: int|
                at <= k < models.len() ==> text_before(task.id@, (#[trigger] models[k]).id),
        decreases at,
    {
        at = at - 1;
    }
    proof {
        placed_at(models, task@, at as int);
    }
    let ghost before = list@;
    list.insert(at, task);
    assert(raw_models(before.insert(at as int, task)) == models.insert(at as int, task@));
}

/// The places of the named tasks, or why the first that is no other task is none.
pub open spec fn places_of(
    ids: Seq<Seq<char>>,
    index: int,
    names: Seq<Seq<char>>,
) -> Result<Seq<usize>, Seq<char>>
    decreases names.len(),
{
    if names.len() == 0 {
        Ok(Seq::empty())
    } else {
        match places_of(ids, index, names.drop_last()) {
            Err(message) => Err(message),
            Ok(before) => if !ids.contains(names.last()) {
                Err("task "@ + ids[index] + " depends on unknown task "@ + names.last())
            } else if first_place(ids, names.last()) == index {
                Err("task "@ + ids[index] + " must not depend on itself"@)
            } else {
                Ok(before.push(first_place(ids, names.last()) as usize))
            },
        }
    }
}

proof fn places_of_stops(
    ids: Seq<Seq<char>>,
    index: int,
    names: Seq<Seq<char>>,
    count: int,
)
    requires
        0 <= count <= names.len(),
        places_of(ids, index, names.take(count)) is Err,
    ensures
        places_of(ids, index, names) == places_of(ids, index, names.take(count)),
    decreases names.len() - count,
{
    if count < names.len() {
        assert(names.take(count + 1).drop_last() == names.take(count));
        places_of_stops(ids, index, names, count + 1);
    } else {
        assert(names.take(count) == names);
    }
}

/// The task with the places of those it depends on, or why it cannot have them.
pub open spec fn linked_task(ids: Seq<Seq<char>>, index: int, task: RawModel) -> Result<
    TaskModel,
    Seq<char>,
> {
    match places_of(ids, index, task.dependencies) {
        Err(message) => Err(message),
        Ok(dependencies) => if dependencies.no_duplicates() {
            Ok(
                TaskModel {
                    id: task.id,
                    priority: task.priority,
                    dependencies,
                    phases: task.phases,
                },
            )
        } else {
            Err("task "@ + task.id + " lists a dependency more than once"@)
        },
    }
}

/// The first `count` tasks with the places of those they depend on.
pub open spec fn linked_tasks(tasks: Seq<RawModel>, count: int) -> Result<
    Seq<TaskModel>,
    Seq<char>,
>
    decreases count,
{
    if count <= 0 {
        Ok(Seq::empty())
    } else {
        match linked_tasks(tasks, count - 1) {
            Err(message) => Err(message),
            Ok(before) => match linked_task(ids_of(tasks), count - 1, tasks[count - 1]) {
                Err(message) => Err(message),
                Ok(task) => Ok(before.push(task)),
            },
        }
    }
}

proof fn linked_tasks_stop(tasks: Seq<RawModel>, count: int, total: int)
    requires
        count <= total,
        linked_tasks(tasks, count) is Err,
    ensures
        linked_tasks(tasks, total) == linked_tasks(tasks, count),
    decreases total - count,
{
    if count < total {
        linked_tasks_stop(tasks, count, total - 1);
    }
}

/// The tasks that a table lists, or why it lists none.
pub open spec fn tasks_of(csv: CsvModel) -> Result<Seq<TaskModel>, Seq<char>> {
    match columns_of(csv.headers) {
        Err(message) => Err(message),
        Ok(columns) => if csv.rows.len() == 0 {
            Err("task CSV requires at least one task"@)
        } else if csv.rows.len() > MAX_TASKS {
            Err("task_schedule supports at most 15 tasks for exact optimization"@)
        } else {
            match raw_tasks_of(csv.rows, columns) {
                Err(message) => Err(message),
                Ok(tasks) => if !ids_of(sorted_by_id(tasks)).no_duplicates() {
                    Err("task CSV contains duplicate id values"@)
                } else {
                    linked_tasks(sorted_by_id(tasks), tasks.len() as int)
                },
            }
        },
    }
}

fn link_task(ids: &Vec<String>, index: usize, task: &RawTask) -> (result: Result<Task, String>)
    requires
        index < ids@.len(),
        ids@[index as int]@ == task.id@,
    ensures
        match result {
            Ok(linked) => linked_task(texts(ids@), index as int, task@) == Ok::<
                TaskModel,
                Seq<char>,
            >(linked@),
            Err(message) => linked_task(texts(ids@), index as int, task@) == Err::<
                TaskModel,
                Seq<char>,
            >(message@),
        },
{
    let ghost all = texts(ids@);
    let ghost names = texts(task.dependencies@);
    let mut dependencies: Vec<usize> = Vec::new();
    for i in 0..task.dependencies.len()
        invariant
            all == texts(ids@),
            names == texts(task.dependencies@),
            index < ids@.len(),
            ids@[index as int]@ == task.id@,
            places_of(all, index as int, names.take(i as int)) == Ok::<Seq<usize>, Seq<char>>(
                dependencies@,
            ),
    {
        let ghost upto = names.take(i + 1);
        assert(upto.drop_last() == names.take(i as int));
        assert(upto.last() == task.dependencies@[i as int]@);
        assert(all[index as int] == task.id@);
        proof {
            first_place_is_first(all, upto.last());
        }
        let name = task.dependencies[i].as_str();
        match position_of(ids, name) {
            None => {
                let mut message = "task ".to_owned();
                message.append(task.id.as_str());
                message.append(" depends on unknown task ");
                message.append(name);
                proof {
                    places_of_stops(all, index as int, names, i + 1);
                }
                return Err(message);
            },
            Some(place) => {
                if place == index {
                    let mut message = "task ".to_owned();
                    message.append(task.id.as_str());
                    message.append(" must not depend on itself");
                    proof {
                        places_of_stops(all, index as int, names, i + 1);
                    }
                    return Err(message);
                }
                dependencies.push(place);
            },
        }
    }
    assert(names.take(names.len() as int) == names);
    if has_duplicate(&dependencies) {
        let mut message = "task ".to_owned();
        message.append(task.id.as_str());
        message.append(" lists a dependency more than once");
        return Err(message);
    }
    let linked = Task {
        id: task.id.clone(),
        priority: task.priority,
        dependencies,
        phases: crate::schedule_search::copied(&task.phases),
    };
    Ok(linked)
}

fn has_duplicate(list: &Vec<usize>) -> (has: bool)
    ensures
        has == !list@.no_duplicates(),
{
    for i in 0..list.len()
        invariant
            forall|k: int, l: int| 0 <= k < l < i ==> list@[k] != list@[l],
            i <= list@.len(),
    {
        for j in 0..i
            invariant
                i < list@.len(),
                forall|k: int| 0 <= k < j ==> list@[k] != list@[i as int],
        {
            if list[j] == list[i] {
                assert(list@[j as int] == list@[i as int]);
                return true;
            }
        }
    }
    false
}

/// The tasks that the table lists, in the order of their ids.
pub fn parse_tasks(csv: &CsvData) -> (result: Result<Vec<Task>, String>)
    ensures
        match result {
            Ok(tasks) => tasks_of(csv@) == Ok::<Seq<TaskModel>, Seq<char>>(task_models(tasks@))
                && dependencies_in_range(task_models(tasks@)) && weights_fit(task_models(tasks@)),
            Err(message) => tasks_of(csv@) == Err::<Seq<TaskModel>, Seq<char>>(message@),
        },
{
    let columns = match find_columns(&csv.headers) {
        Ok(columns) => columns,
        Err(message) => {
            return Err(message);
        },
    };
    if csv.rows.len() == 0 {
        return Err("task CSV requires at least one task".to_owned());
    }
    if csv.rows.len() > MAX_TASKS {
        return Err("task_schedule supports at most 15 tasks for exact optimization".to_owned());
    }
    let ghost rows = text_rows(csv.rows@);
    let ghost mut raws: Seq<RawModel> = Seq::empty();
    let mut sorted: Vec<RawTask> = Vec::new();
    assert(rows.take(0) == Seq::<Seq<Seq<char>>>::empty());
    assert(raw_models(sorted@) == Seq::<RawModel>::empty());
    for i in 0..csv.rows.len()
        invariant
            rows == text_rows(csv.rows@),
            csv.rows@.len() <= MAX_TASKS,
            csv.rows@.len() > 0,
            columns_of(csv@.headers) == Ok::<TaskColumns, Seq<char>>(columns),
            raw_tasks_of(rows.take(i as int), columns) == Ok::<Seq<RawModel>, Seq<char>>(raws),
            raw_models(sorted@) == sorted_by_id(raws),
            raws.len() == i,
    {
        let ghost upto = rows.take(i + 1);
        assert(upto.drop_last() == rows.take(i as int));
        assert(upto.last() == texts(csv.rows@[i as int]@));
        match parse_raw_task(&csv.rows[i], &columns, i) {
            Err(message) => {
                proof {
                    raw_tasks_of_stops(rows, i + 1, columns);
                }
                return Err(message);
            },
            Ok(task) => {
                proof {
                    assert(raws.push(task@).drop_last() == raws);
                    raws = raws.push(task@);
                }
                place(&mut sorted, task);
            },
        }
    }
    assert(rows.take(rows.len() as int) == rows);
    let ghost models = raw_models(sorted@);
    proof {
        sorted_by_id_keeps_count(raws);
    }
    let mut ids: Vec<String> = Vec::new();
    for i in 0..sorted.len()
        invariant
            models == raw_models(sorted@),
            ids@.len() == i,
            forall|k: int| 0 <= k < i ==> (#[trigger] ids@[k])@ == models[k].id,
    {
        ids.push(sorted[i].id.clone());
    }
    assert(texts(ids@) == ids_of(models));
    if repeats_text(&ids) {
        return Err("task CSV contains duplicate id values".to_owned());
    }
    let mut tasks: Vec<Task> = Vec::new();
    assert(task_models(tasks@) == Seq::<TaskModel>::empty());
    for i in 0..sorted.len()
        invariant
            models == raw_models(sorted@),
            texts(ids@) == ids_of(models),
            tasks_of(csv@) == linked_tasks(models, models.len() as int),
            linked_tasks(models, i as int) == Ok::<Seq<TaskModel>, Seq<char>>(
                task_models(tasks@),
            ),
    {
        assert(texts(ids@)[i as int] == ids_of(models)[i as int]);
        match link_task(&ids, i, &sorted[i]) {
            Err(message) => {
                proof {
                    linked_tasks_stop(models, i + 1, models.len() as int);
                }
                return Err(message);
            },
            Ok(task) => {
                let ghost before = tasks@;
                tasks.push(task);
                assert(task_models(tasks@) == task_models(before).push(task@));
            },
        }
    }
    proof {
        tasks_of_is_right(csv@);
    }
    Ok(tasks)
}

proof fn sorted_by_id_keeps_count(tasks: Seq<RawModel>)
    ensures
        sorted_by_id(tasks).len() == tasks.len(),
    decreases tasks.len(),
{
    sorted_by_id_is_sorted(tasks);
    vstd::seq_lib::to_multiset_len(tasks);
    vstd::seq_lib::to_multiset_len(sorted_by_id(tasks));
}

fn repeats_text(list: &Vec<String>) -> (repeats: bool)
    ensures
        repeats == !texts(list@).no_duplicates(),
{
    let ghost all = texts(list@);
    for i in 0..list.len()
        invariant
            all == texts(list@),
            forall|k: int, l: int| 0 <= k < l < i ==> all[k] != all[l],
            i <= list@.len(),
    {
        for j in 0..i
            invariant
                all == texts(list@),
                i < list@.len(),
                forall|k: int| 0 <= k < j ==> all[k] != all[i as int],
        {
            if same_text(list[j].as_str(), list[i].as_str()) {
                assert(all[j as int] == all[i as int]);
                return true;
            }
        }
    }
    false
}

/// What holds of every list of tasks that a table gives.
pub open spec fn tasks_are_right(tasks: Seq<TaskModel>) -> bool {
    &&& 1 <= tasks.len() <= MAX_TASKS
    &&& dependencies_in_range(tasks)
    &&& weights_fit(tasks)
    &&& forall|i: int, j: int|
        0 <= i < j < tasks.len() ==> text_before(
            (#[trigger] tasks[i]).id,
            (#[trigger] tasks[j]).id,
        )
    &&& forall|i: int|
        0 <= i < tasks.len() ==> {
            let task = #[trigger] tasks[i];
            &&& task.id.len() > 0
            &&& 1 <= task.priority <= 5
            &&& task.dependencies.no_duplicates()
            &&& !task.dependencies.contains(i as usize)
            &&& task.phases.len() > 0
            &&& phases_alternate(task.phases)
            &&& forall|k: int|
                0 <= k < task.phases.len() ==> (#[trigger] task.phases[k]).duration_minutes > 0
        }
}

/// The tasks that a table gives are at most fifteen, in the order of their ids, which differ;
/// each has a priority from one to five, depends on others of them, on none twice, and has
/// phases that alternate and take time.
pub proof fn tasks_of_is_right(csv: CsvModel)
    ensures
        tasks_of(csv) matches Ok(tasks) ==> tasks_are_right(tasks),
{
    if let Ok(tasks) = tasks_of(csv) {
        let columns = columns_of(csv.headers)->Ok_0;
        let raws = raw_tasks_of(csv.rows, columns)->Ok_0;
        let sorted = sorted_by_id(raws);
        raw_tasks_are_right(csv.rows, columns);
        sorted_by_id_is_sorted(raws);
        sorted_by_id_keeps_count(raws);
        assert forall|i: int| 0 <= i < sorted.len() implies raw_is_right(#[trigger] sorted[i]) by {
            assert(sorted.to_multiset().count(sorted[i]) > 0) by {
                vstd::seq_lib::to_multiset_contains(sorted, sorted[i]);
            }
            vstd::seq_lib::to_multiset_contains(raws, sorted[i]);
            let k = choose|k: int| 0 <= k < raws.len() && raws[k] == sorted[i];
            assert(raw_is_right(raws[k]));
        }
        linked_tasks_are_right(sorted, sorted.len() as int);
        assert forall|i: int, j: int| 0 <= i < j < tasks.len() implies text_before(
            (#[trigger] tasks[i]).id,
            (#[trigger] tasks[j]).id,
        ) by {
            assert(ids_of(sorted)[i] != ids_of(sorted)[j]);
            assert(!text_before(sorted[j].id, sorted[i].id));
            text_before_total(sorted[i].id, sorted[j].id);
        }
        assert(dependencies_in_range(tasks)) by {
            assert forall|i: int, j: int|
                0 <= i < tasks.len() && 0 <= j < tasks[i].dependencies.len() implies #[trigger] tasks[i].dependencies[j]
                < tasks.len() by {
                assert(task_is_linked(tasks[i], i, sorted));
            }
        }
        assert forall|i: int| 0 <= i < tasks.len() implies ({
            let task = #[trigger] tasks[i];
            &&& task.id.len() > 0
            &&& 1 <= task.priority <= 5
            &&& task.dependencies.no_duplicates()
            &&& !task.dependencies.contains(i as usize)
            &&& task.phases.len() > 0
            &&& phases_alternate(task.phases)
            &&& forall|k: int|
                0 <= k < task.phases.len() ==> (#[trigger] task.phases[k]).duration_minutes > 0
        }) by {
            assert(task_is_linked(tasks[i], i, sorted));
            assert(raw_is_right(sorted[i]));
        }
        weights_of_few(tasks, tasks.len() as int);
        let total = total_weight(tasks, tasks.len() as int);
        assert(total * u64::MAX <= 1215 * u64::MAX) by (nonlinear_arith)
            requires
                total <= 1215,
        ;
    }
}

/// What holds of a task as its row says it.
spec fn raw_is_right(task: RawModel) -> bool {
    &&& task.id.len() > 0
    &&& 1 <= task.priority <= 5
    &&& task.phases.len() > 0
    &&& phases_alternate(task.phases)
    &&& forall|k: int|
        0 <= k < task.phases.len() ==> (#[trigger] task.phases[k]).duration_minutes > 0
}

proof fn raw_tasks_are_right(rows: Seq<Seq<Seq<char>>>, columns: TaskColumns)
    ensures
        raw_tasks_of(rows, columns) matches Ok(tasks) ==> tasks.len() == rows.len() && forall|
            k: int,
        |
            0 <= k < tasks.len() ==> raw_is_right(#[trigger] tasks[k]),
    decreases rows.len(),
{
    if rows.len() > 0 {
        raw_tasks_are_right(rows.drop_last(), columns);
        let row = rows.last();
        if let Ok(task) = raw_task_of(row, columns, rows.len() - 1) {
            let value = row[columns.phases as int];
            split_has_a_piece(value, '|');
            phases_take_time(split(value, '|'), rows.len() - 1);
        }
    }
}

/// Whether the task is the raw task at `index`, with the places of others.
spec fn task_is_linked(task: TaskModel, index: int, tasks: Seq<RawModel>) -> bool {
    &&& task.id == tasks[index].id
    &&& task.priority == tasks[index].priority
    &&& task.phases == tasks[index].phases
    &&& task.dependencies.no_duplicates()
    &&& forall|j: int|
        0 <= j < task.dependencies.len() ==> #[trigger] task.dependencies[j] < tasks.len()
            && task.dependencies[j] != index
}

proof fn places_are_others(ids: Seq<Seq<char>>, index: int, names: Seq<Seq<char>>)
    requires
        ids.len() <= usize::MAX,
    ensures
        places_of(ids, index, names) matches Ok(places) ==> forall|j: int|
            0 <= j < places.len() ==> #[trigger] places[j] < ids.len() && places[j] != index,
    decreases names.len(),
{
    if names.len() > 0 {
        places_are_others(ids, index, names.drop_last());
        first_place_is_first(ids, names.last());
    }
}

proof fn linked_tasks_are_right(tasks: Seq<RawModel>, count: int)
    requires
        0 <= count <= tasks.len() <= usize::MAX,
    ensures
        linked_tasks(tasks, count) matches Ok(linked) ==> linked.len() == count && forall|i: int|
            0 <= i < count ==> task_is_linked(#[trigger] linked[i], i, tasks),
    decreases count,
{
    if count > 0 {
        linked_tasks_are_right(tasks, count - 1);
        places_are_others(ids_of(tasks), count - 1, tasks[count - 1].dependencies);
    }
}

proof fn weights_of_few(tasks: Seq<TaskModel>, count: int)
    requires
        0 <= count <= tasks.len(),
        forall|i: int| 0 <= i < tasks.len() ==> 1 <= (#[trigger] tasks[i]).priority <= 5,
    ensures
        0 <= total_weight(tasks, count) <= 81 * count,
    decreases count,
{
    if count > 0 {
        weights_of_few(tasks, count - 1);
        assert(1 <= tasks[count - 1].priority <= 5);
        reveal_with_fuel(weight, 6);
    }
}

/// Whether the entry comes strictly before the other in a schedule table: by its start, its
/// end, its task and its phase.
pub open spec fn entry_before(left: ScheduleEntry, right: ScheduleEntry) -> bool {
    ||| left.start_minutes < right.start_minutes
    ||| left.start_minutes == right.start_minutes && left.end_minutes < right.end_minutes
    ||| left.start_minutes == right.start_minutes && left.end_minutes == right.end_minutes
        && left.task_index < right.task_index
    ||| left.start_minutes == right.start_minutes && left.end_minutes == right.end_minutes
        && left.task_index == right.task_index && left.phase_index < right.phase_index
}

fn is_entry_before(left: &ScheduleEntry, right: &ScheduleEntry) -> (before: bool)
    ensures
        before == entry_before(*left, *right),
{
    if left.start_minutes != right.start_minutes {
        left.start_minutes < right.start_minutes
    } else if left.end_minutes != right.end_minutes {
        left.end_minutes < right.end_minutes
    } else if left.task_index != right.task_index {
        left.task_index < right.task_index
    } else {
        left.phase_index < right.phase_index
    }
}

/// The list with one entry more, before all that come after it.
pub open spec fn entry_placed(list: Seq<ScheduleEntry>, entry: ScheduleEntry) -> Seq<
    ScheduleEntry,
>
    decreases list.len(),
{
    if list.len() > 0 && entry_before(entry, list.last()) {
        entry_placed(list.drop_last(), entry).push(list.last())
    } else {
        list.push(entry)
    }
}

/// The entries in the order of a schedule table.
pub open spec fn sorted_entries(entries: Seq<ScheduleEntry>) -> Seq<ScheduleEntry>
    decreases entries.len(),
{
    if entries.len() == 0 {
        entries
    } else {
        entry_placed(sorted_entries(entries.drop_last()), entries.last())
    }
}

proof fn entry_placed_at(list: Seq<ScheduleEntry>, entry: ScheduleEntry, place: int)
    requires
        0 <= place <= list.len(),
        forall|k: int| place <= k < list.len() ==> entry_before(entry, #[trigger] list[k]),
        place > 0 ==> !entry_before(entry, list[place - 1]),
    ensures
        entry_placed(list, entry) == list.insert(place, entry),
    decreases list.len(),
{
    if place < list.len() {
        let rest = list.drop_last();
        entry_placed_at(rest, entry, place);
        assert(rest.insert(place, entry).push(list.last()) == list.insert(place, entry));
    } else {
        if list.len() > 0 {
            assert(list.last() == list[place - 1]);
        }
        assert(list.insert(place, entry) == list.push(entry));
    }
}

/// The entries in the order of the table are the same entries, and none comes before an earlier
/// one.
pub proof fn sorted_entries_are_sorted(entries: Seq<ScheduleEntry>)
    ensures
        sorted_entries(entries).to_multiset() == entries.to_multiset(),
        entries_in_order(sorted_entries(entries)),
    decreases entries.len(),
{
    if entries.len() > 0 {
        let rest = entries.drop_last();
        sorted_entries_are_sorted(rest);
        entry_placed_keeps_order(sorted_entries(rest), entries.last());
        assert(entries == rest.push(entries.last()));
        vstd::seq_lib::to_multiset_build(rest, entries.last());
    }
}

/// No entry comes before an earlier one.
pub open spec fn entries_in_order(entries: Seq<ScheduleEntry>) -> bool {
    forall|i: int, j: int|
        0 <= i < j < entries.len() ==> !entry_before(#[trigger] entries[j], #[trigger] entries[i])
}

proof fn entry_placed_keeps_order(list: Seq<ScheduleEntry>, entry: ScheduleEntry)
    requires
        entries_in_order(list),
    ensures
        entries_in_order(entry_placed(list, entry)),
        entry_placed(list, entry).to_multiset() == list.to_multiset().insert(entry),
        forall|k: int|
            0 <= k < entry_placed(list, entry).len() ==> #[trigger] entry_placed(list, entry)[k]
                == entry || list.contains(entry_placed(list, entry)[k]),
    decreases list.len(),
{
    let result = entry_placed(list, entry);
    if list.len() > 0 && entry_before(entry, list.last()) {
        let rest = list.drop_last();
        let last = list.last();
        entry_placed_keeps_order(rest, entry);
        let before = entry_placed(rest, entry);
        assert forall|i: int, j: int| 0 <= i < j < result.len() implies !entry_before(
            #[trigger] result[j],
            #[trigger] result[i],
        ) by {
            if j == before.len() {
                assert(before[i] == entry || rest.contains(before[i]));
                if before[i] != entry {
                    let m = choose|m: int| 0 <= m < rest.len() && rest[m] == before[i];
                    assert(list[m] == before[i]);
                    assert(list[list.len() - 1] == last);
                }
            } else {
                assert(before[i] == result[i] && before[j] == result[j]);
            }
        }
        assert forall|k: int| 0 <= k < result.len() implies #[trigger] result[k] == entry
            || list.contains(result[k]) by {
            if k < before.len() {
                assert(before[k] == entry || rest.contains(before[k]));
                if rest.contains(before[k]) {
                    let m = choose|m: int| 0 <= m < rest.len() && rest[m] == before[k];
                    assert(list[m] == result[k]);
                }
            } else {
                assert(list[list.len() - 1] == result[k]);
            }
        }
        vstd::seq_lib::to_multiset_build(before, last);
        assert(list == rest.push(last));
        vstd::seq_lib::to_multiset_build(rest, last);
        assert(rest.to_multiset().insert(entry).insert(last) =~= rest.to_multiset().insert(
            last,
        ).insert(entry));
    } else {
        vstd::seq_lib::to_multiset_build(list, entry);
        assert forall|i: int, j: int| 0 <= i < j < result.len() implies !entry_before(
            #[trigger] result[j],
            #[trigger] result[i],
        ) by {
            assert(list[i] == result[i]);
            if j < list.len() {
                assert(list[j] == result[j]);
            } else {
                let last = list[list.len() - 1];
                assert(i < list.len() - 1 ==> !entry_before(last, list[i]));
            }
        }
        assert forall|k: int| 0 <= k < result.len() implies #[trigger] result[k] == entry
            || list.contains(result[k]) by {
            if k < list.len() {
                assert(list[k] == result[k]);
            }
        }
    }
}

fn sort_entries(entries: &Vec<ScheduleEntry>) -> (sorted: Vec<ScheduleEntry>)
    ensures
        sorted@ == sorted_entries(entries@),
{
    let mut sorted: Vec<ScheduleEntry> = Vec::new();
    let ghost all = entries@;
    assert(all.take(0) == Seq::<ScheduleEntry>::empty());
    for i in 0..entries.len()
        invariant
            all == entries@,
            sorted@ == sorted_entries(all.take(i as int)),
    {
        let entry = entries[i];
        let ghost list = sorted@;
        let mut at: usize = sorted.len();
        while at > 0 && is_entry_before(&entry, &sorted[at - 1])
            invariant
                list == sorted@,
                at <= list.len(),
                forall|k: int| at <= k < list.len() ==> entry_before(entry, #[trigger] list[k]),
            decreases at,
        {
            at = at - 1;
        }
        proof {
            entry_placed_at(list, entry, at as int);
            assert(all.take(i + 1).drop_last() == all.take(i as int));
        }
        sorted.insert(at, entry);
    }
    assert(all.take(all.len() as int) == all);
    sorted
}

/// The names of the columns of a schedule table.
pub open spec fn schedule_headers() -> Seq<Seq<char>> {
    seq![
        "record_type"@,
        "task_id"@,
        "priority"@,
        "phase_index"@,
        "phase_kind"@,
        "start_minutes"@,
        "end_minutes"@,
    ]
}

/// The row of a phase.
pub open spec fn phase_row(tasks: Seq<TaskModel>, entry: ScheduleEntry) -> Seq<Seq<char>> {
    let task = tasks[entry.task_index as int];
    seq![
        "phase"@,
        task.id,
        decimal(task.priority as nat),
        decimal(entry.phase_index as nat),
        kind_text(entry.kind),
        decimal(entry.start_minutes as nat),
        decimal(entry.end_minutes as nat),
    ]
}

/// The row of a task's completion.
pub open spec fn completion_row(task: TaskModel, completion: u64) -> Seq<Seq<char>> {
    seq![
        "task_complete"@,
        task.id,
        decimal(task.priority as nat),
        Seq::empty(),
        Seq::empty(),
        Seq::empty(),
        decimal(completion as nat),
    ]
}

/// The rows of a schedule table: the phases in the order of the table, then the completions in
/// the order of the tasks.
pub open spec fn schedule_rows(tasks: Seq<TaskModel>, schedule: ScheduleModel) -> Seq<
    Seq<Seq<char>>,
> {
    let entries = sorted_entries(schedule.entries);
    let count = if tasks.len() < schedule.completion.len() {
        tasks.len()
    } else {
        schedule.completion.len()
    };
    Seq::new(entries.len(), |i: int| phase_row(tasks, entries[i])) + Seq::new(
        count,
        |i: int| completion_row(tasks[i], schedule.completion[i]),
    )
}

/// The table of a schedule as CSV text.
pub open spec fn schedule_csv(tasks: Seq<TaskModel>, schedule: ScheduleModel) -> Seq<char> {
    records_text(seq![schedule_headers()] + schedule_rows(tasks, schedule))
}

/// Records that all have as many fields as the first are even.
proof fn even_records(records: Seq<Seq<Seq<char>>>, from: int)
    requires
        0 <= from,
        forall|i: int| 0 <= i < records.len() ==> (#[trigger] records[i]).len() == records[0].len(),
    ensures
        uneven_record(records, from) is None,
    decreases records.len() - from,
{
    if from < records.len() {
        even_records(records, from + 1);
    }
}

/// The table of the schedule as CSV text.
pub fn write_schedule(tasks: &Vec<Task>, schedule: &Schedule) -> (text: String)
    requires
        entries_in_range(schedule@.entries, tasks@.len()),
    ensures
        text@ == schedule_csv(task_models(tasks@), schedule@),
{
    let ghost models = task_models(tasks@);
    let entries = sort_entries(&schedule.entries);
    let ghost sorted = entries@;
    proof {
        sorted_entries_are_sorted(schedule@.entries);
        assert forall|i: int| 0 <= i < sorted.len() implies (#[trigger] sorted[i]).task_index
            < tasks@.len() by {
            vstd::seq_lib::to_multiset_contains(sorted, sorted[i]);
            vstd::seq_lib::to_multiset_contains(schedule@.entries, sorted[i]);
        }
    }
    let headers = vec![
        "record_type".to_owned(),
        "task_id".to_owned(),
        "priority".to_owned(),
        "phase_index".to_owned(),
        "phase_kind".to_owned(),
        "start_minutes".to_owned(),
        "end_minutes".to_owned(),
    ];
    let mut rows: Vec<Vec<String>> = Vec::new();
    for i in 0..entries.len()
        invariant
            models == task_models(tasks@),
            sorted == entries@,
            forall|i: int| 0 <= i < sorted.len() ==> (#[trigger] sorted[i]).task_index
                < tasks@.len(),
            text_rows(rows@) == Seq::new(i as nat, |k: int| phase_row(models, sorted[k])),
    {
        let entry = entries[i];
        let task = &tasks[entry.task_index];
        assert(models[entry.task_index as int] == task@);
        let row = vec![
            "phase".to_owned(),
            task.id.clone(),
            to_decimal(task.priority as u64),
            to_decimal(entry.phase_index as u64),
            entry.kind.as_str().to_owned(),
            to_decimal(entry.start_minutes),
            to_decimal(entry.end_minutes),
        ];
        assert(texts(row@) == phase_row(models, sorted[i as int]));
        proof {
            text_rows_push(rows@, row);
        }
        rows.push(row);
        assert(Seq::new(i as nat, |k: int| phase_row(models, sorted[k])).push(
            phase_row(models, sorted[i as int]),
        ) == Seq::new((i + 1) as nat, |k: int| phase_row(models, sorted[k])));
    }
    let ghost phase_rows = text_rows(rows@);
    let ghost completion = schedule@.completion;
    let count: usize = if tasks.len() < schedule.completion_minutes.len() {
        tasks.len()
    } else {
        schedule.completion_minutes.len()
    };
    for i in 0..count
        invariant
            models == task_models(tasks@),
            completion == schedule.completion_minutes@,
            count <= tasks@.len(),
            count <= completion.len(),
            text_rows(rows@) == phase_rows + Seq::new(
                i as nat,
                |k: int| completion_row(models[k], completion[k]),
            ),
    {
        let task = &tasks[i];
        let row = vec![
            "task_complete".to_owned(),
            task.id.clone(),
            to_decimal(task.priority as u64),
            String::new(),
            String::new(),
            String::new(),
            to_decimal(schedule.completion_minutes[i]),
        ];
        assert(texts(row@) == completion_row(models[i as int], completion[i as int]));
        proof {
            text_rows_push(rows@, row);
        }
        rows.push(row);
        assert((phase_rows + Seq::new(
            i as nat,
            |k: int| completion_row(models[k], completion[k]),
        )).push(completion_row(models[i as int], completion[i as int])) == phase_rows + Seq::new(
            (i + 1) as nat,
            |k: int| completion_row(models[k], completion[k]),
        ));
    }
    let ghost records = seq![texts(headers@)] + text_rows(rows@);
    proof {
        assert(texts(headers@) == schedule_headers());
        assert(text_rows(rows@) == schedule_rows(models, schedule@));
        assert forall|i: int| 0 <= i < records.len() implies (#[trigger] records[i]).len()
            == records[0].len() by {
            if i > 0 {
                assert(records[i] == schedule_rows(models, schedule@)[i - 1]);
            }
        }
        even_records(records, 0);
    }
    match write_csv(&headers, &rows) {
        Ok(text) => text,
        Err(message) => message,
    }
}

/// How many minutes one column of the chart stands for.
pub open spec fn minutes_per_column(makespan: int, width: int) -> int {
    let rounded_up = (makespan + width - 1) / width;
    if rounded_up < 1 {
        1
    } else {
        rounded_up
    }
}

/// The longest id, in characters.
pub open spec fn longest_id(tasks: Seq<TaskModel>) -> nat
    decreases tasks.len(),
{
    if tasks.len() == 0 {
        0
    } else {
        let before = longest_id(tasks.drop_last());
        if tasks.last().id.len() > before {
            tasks.last().id.len()
        } else {
            before
        }
    }
}

/// How wide the names of the chart are: as the longest id, but from 4 to 24.
pub open spec fn label_width(tasks: Seq<TaskModel>) -> int {
    let longest = longest_id(tasks);
    if longest < 4 {
        4
    } else if longest > 24 {
        24
    } else {
        longest as int
    }
}

/// The label, cut to the width, with a tilde for what is cut off.
pub open spec fn truncated(label: Seq<char>, width: int) -> Seq<char> {
    if label.len() <= width {
        label
    } else if width == 0 {
        Seq::empty()
    } else {
        label.take(width - 1).push('~')
    }
}

/// The label, cut to the width.
pub fn truncate_label(label: &str, width: usize) -> (result: String)
    ensures
        result@ == truncated(label@, width as int),
{
    let chars = chars_of(label);
    if chars.len() <= width {
        label.to_owned()
    } else if width == 0 {
        String::new()
    } else {
        let mut result = string_between(&chars, 0, width - 1);
        result.push('~');
        assert(result@ == label@.take(width - 1).push('~'));
        result
    }
}

/// The mark of a kind of phase in the chart.
pub open spec fn marker(kind: PhaseKind) -> char {
    match kind {
        PhaseKind::Manual => '#',
        PhaseKind::Auto => '=',
    }
}

/// The column of a minute, at most the last.
pub open spec fn column_of(minute: int, per_column: int, width: int) -> int {
    if minute / per_column < width {
        minute / per_column
    } else {
        width - 1
    }
}

/// The columns of a task in the chart: a column has the mark of the last of the entries of the
/// task that reach into it.
pub open spec fn chart_cells(
    entries: Seq<ScheduleEntry>,
    task: int,
    per_column: int,
    width: int,
) -> Seq<char>
    decreases entries.len(),
{
    if entries.len() == 0 {
        repeated(' ', width)
    } else {
        let before = chart_cells(entries.drop_last(), task, per_column, width);
        let entry = entries.last();
        if entry.task_index == task {
            Seq::new(
                before.len(),
                |column: int|
                    if column_of(entry.start_minutes as int, per_column, width) <= column
                        <= column_of(entry.end_minutes - 1, per_column, width) {
                        marker(entry.kind)
                    } else {
                        before[column]
                    },
            )
        } else {
            before
        }
    }
}

/// The head of the chart.
pub open spec fn chart_head(tasks: Seq<TaskModel>, schedule: ScheduleModel, width: int) -> Seq<
    char,
> {
    "\ngantt chart (# manual, = auto)\ntime: 0.."@ + decimal(schedule.makespan as nat)
        + " min, 1 column = "@ + decimal(
        minutes_per_column(schedule.makespan as int, width) as nat,
    ) + " min\n"@ + padded_right("task"@, label_width(tasks)) + " |"@ + repeated('-', width)
        + "| done\n"@
}

/// The line of a task in the chart.
pub open spec fn chart_line(
    tasks: Seq<TaskModel>,
    schedule: ScheduleModel,
    width: int,
    task: int,
) -> Seq<char> {
    padded_right(truncated(tasks[task].id, label_width(tasks)), label_width(tasks)) + " |"@
        + chart_cells(
        schedule.entries,
        task,
        minutes_per_column(schedule.makespan as int, width),
        width,
    ) + "| "@ + decimal(schedule.completion[task] as nat) + " min\n"@
}

/// The chart with the lines of the first `count` tasks.
pub open spec fn chart_upto(
    tasks: Seq<TaskModel>,
    schedule: ScheduleModel,
    width: int,
    count: int,
) -> Seq<char>
    decreases count,
{
    if count <= 0 {
        chart_head(tasks, schedule, width)
    } else {
        chart_upto(tasks, schedule, width, count - 1) + chart_line(
            tasks,
            schedule,
            width,
            count - 1,
        )
    }
}

/// The chart of a schedule, at least one column wide.
pub open spec fn chart_text(tasks: Seq<TaskModel>, schedule: ScheduleModel, width: int) -> Seq<
    char,
> {
    chart_upto(
        tasks,
        schedule,
        if width < 1 {
            1
        } else {
            width
        },
        tasks.len() as int,
    )
}

/// Whether a chart of the schedule can be drawn: every entry ends after the start of time, and
/// every task has a completion.
pub open spec fn can_be_drawn(tasks: Seq<TaskModel>, schedule: ScheduleModel) -> bool {
    &&& schedule.completion.len() >= tasks.len()
    &&& forall|i: int|
        0 <= i < schedule.entries.len() ==> (#[trigger] schedule.entries[i]).end_minutes >= 1
}

fn count_minutes_per_column(makespan: u64, width: u64) -> (minutes: u64)
    requires
        width >= 1,
    ensures
        minutes == minutes_per_column(makespan as int, width as int),
        minutes >= 1,
{
    let whole: u64 = makespan / width;
    let rest: u64 = makespan % width;
    proof {
        let m = makespan as int;
        let w = width as int;
        vstd::arithmetic::div_mod::lemma_fundamental_div_mod(m, w);
        assert(whole as int * w + rest as int == m) by (nonlinear_arith)
            requires
                m == w * (m / w) + m % w,
                whole == m / w,
                rest == m % w,
        ;
        if rest == 0 {
            vstd::arithmetic::div_mod::lemma_fundamental_div_mod_converse(
                m + w - 1,
                w,
                whole as int,
                w - 1,
            );
        } else {
            assert(m + w - 1 == (whole as int + 1) * w + (rest as int - 1)) by (nonlinear_arith)
                requires
                    whole as int * w + rest as int == m,
            ;
            vstd::arithmetic::div_mod::lemma_fundamental_div_mod_converse(
                m + w - 1,
                w,
                whole as int + 1,
                rest as int - 1,
            );
        }
        assert(whole < u64::MAX || rest == 0) by (nonlinear_arith)
            requires
                whole as int * w + rest as int == m,
                w >= 1,
                m <= u64::MAX,
                0 <= whole,
                0 <= rest,
        ;
    }
    let rounded_up: u64 = if rest > 0 {
        whole + 1
    } else {
        whole
    };
    if rounded_up < 1 {
        1
    } else {
        rounded_up
    }
}

fn find_column(minute: u64, per_column: u64, width: usize) -> (column: usize)
    requires
        per_column >= 1,
        width >= 1,
    ensures
        column == column_of(minute as int, per_column as int, width as int),
        column < width,
{
    let column: u64 = minute / per_column;
    if column < width as u64 {
        column as usize
    } else {
        width - 1
    }
}

fn draw_cells(entries: &Vec<ScheduleEntry>, task: usize, per_column: u64, width: usize) -> (cells: String)
    requires
        per_column >= 1,
        width >= 1,
        forall|i: int| 0 <= i < entries@.len() ==> (#[trigger] entries@[i]).end_minutes >= 1,
    ensures
        cells@ == chart_cells(entries@, task as int, per_column as int, width as int),
{
    let mut row = chars_of(repeat(' ', width).as_str());
    let ghost all = entries@;
    assert(all.take(0) == Seq::<ScheduleEntry>::empty());
    for i in 0..entries.len()
        invariant
            all == entries@,
            per_column >= 1,
            width >= 1,
            forall|i: int| 0 <= i < entries@.len() ==> (#[trigger] entries@[i]).end_minutes >= 1,
            row@.len() == width,
            row@ == chart_cells(all.take(i as int), task as int, per_column as int, width as int),
    {
        let entry = entries[i];
        assert(all.take(i + 1).drop_last() == all.take(i as int));
        assert(all.take(i + 1).last() == entry);
        assert(all[i as int].end_minutes >= 1);
        if entry.task_index == task {
            let start = find_column(entry.start_minutes, per_column, width);
            let end = find_column(entry.end_minutes - 1, per_column, width);
            let mark = match entry.kind {
                PhaseKind::Manual => '#',
                PhaseKind::Auto => '=',
            };
            let ghost before = row@;
            let mut column: usize = start;
            while column <= end
                invariant
                    start <= column,
                    end < width,
                    row@.len() == width,
                    forall|k: int|
                        0 <= k < width ==> #[trigger] row@[k] == (if start <= k < column && k
                            <= end {
                            mark
                        } else {
                            before[k]
                        }),
                decreases end + 1 - column,
            {
                row.set(column, mark);
                column = column + 1;
            }
            assert(row@ == chart_cells(
                all.take(i + 1),
                task as int,
                per_column as int,
                width as int,
            ));
        }
    }
    assert(all.take(all.len() as int) == all);
    let cells = string_between(&row, 0, row.len());
    assert(cells@ == row@);
    cells
}

fn measure_labels(tasks: &Vec<Task>) -> (width: usize)
    ensures
        width == label_width(task_models(tasks@)),
{
    let ghost models = task_models(tasks@);
    let mut longest: usize = 0;
    for i in 0..tasks.len()
        invariant
            models == task_models(tasks@),
            longest == longest_id(models.take(i as int)),
    {
        assert(models.take(i + 1).drop_last() == models.take(i as int));
        let length = chars_of(tasks[i].id.as_str()).len();
        if length > longest {
            longest = length;
        }
    }
    assert(models.take(models.len() as int) == models);
    if longest < 4 {
        4
    } else if longest > 24 {
        24
    } else {
        longest
    }
}

/// The chart of the schedule, with columns of the standard number.
pub fn render_gantt_chart(tasks: &Vec<Task>, schedule: &Schedule) -> (text: String)
    requires
        can_be_drawn(task_models(tasks@), schedule@),
    ensures
        text@ == chart_text(task_models(tasks@), schedule@, GANTT_WIDTH as int),
{
    render_gantt_chart_with_width(tasks, schedule, GANTT_WIDTH)
}

/// The chart of the schedule.
pub fn render_gantt_chart_with_width(tasks: &Vec<Task>, schedule: &Schedule, width: usize) -> (text: String)
    requires
        can_be_drawn(task_models(tasks@), schedule@),
    ensures
        text@ == chart_text(task_models(tasks@), schedule@, width as int),
{
    let ghost models = task_models(tasks@);
    let width: usize = if width < 1 {
        1
    } else {
        width
    };
    let per_column = count_minutes_per_column(schedule.makespan_minutes, width as u64);
    let labels = measure_labels(tasks);
    let mut text = "\ngantt chart (# manual, = auto)\ntime: 0..".to_owned();
    text.append(to_decimal(schedule.makespan_minutes).as_str());
    text.append(" min, 1 column = ");
    text.append(to_decimal(per_column).as_str());
    text.append(" min\n");
    text.append(pad_right("task", labels).as_str());
    text.append(" |");
    text.append(repeat('-', width).as_str());
    text.append("| done\n");
    assert(text@ == chart_head(models, schedule@, width as int));
    for i in 0..tasks.len()
        invariant
            models == task_models(tasks@),
            width >= 1,
            per_column >= 1,
            per_column == minutes_per_column(schedule@.makespan as int, width as int),
            labels == label_width(models),
            can_be_drawn(models, schedule@),
            text@ == chart_upto(models, schedule@, width as int, i as int),
    {
        let label = truncate_label(tasks[i].id.as_str(), labels);
        let cells = draw_cells(&schedule.entries, i, per_column, width);
        let ghost before = text@;
        let mut line = pad_right(label.as_str(), labels);
        line.append(" |");
        line.append(cells.as_str());
        line.append("| ");
        line.append(to_decimal(schedule.completion_minutes[i]).as_str());
        line.append(" min\n");
        assert(line@ == chart_line(models, schedule@, width as int, i as int));
        text.append(line.as_str());
    }
    text
}

/// What a run gives: the schedule as CSV text, and its chart.
pub struct ScheduleOutput {
    pub csv: String,
    pub chart: String,
}

/// Whether the output is the table and the chart of the schedule.
pub open spec fn is_output_of(
    output: ScheduleOutput,
    tasks: Seq<TaskModel>,
    schedule: ScheduleModel,
) -> bool {
    &&& output.csv@ == schedule_csv(tasks, schedule)
    &&& output.chart@ == chart_text(tasks, schedule, GANTT_WIDTH as int)
}

/// The best schedule of the tasks of the table, as a table and as a chart.
pub fn run(csv: &CsvData) -> (result: Result<ScheduleOutput, String>)
    ensures
        match tasks_of(csv@) {
            Err(message) => result matches Err(said) && said@ == message,
            Ok(tasks) => match start_autos(tasks, initial_state(tasks), 0) {
                None => result matches Err(said) && said@ == failure_text(
                    ScheduleFailure::TimeOverflow,
                ),
                Some(begun) => {
                    let explored = explore(tasks, begun, 0);
                    match explored.failure {
                        Some(failure) => result matches Err(said) && said@ == failure_text(
                            failure,
                        ),
                        None => {
                            let best = best_of(None, explored.found, tasks);
                            &&& best is Some
                            &&& is_valid(tasks, best->0)
                            &&& result matches Ok(output) && is_output_of(output, tasks, best->0)
                        },
                    }
                },
            },
        },
{
    let tasks = match parse_tasks(csv) {
        Ok(tasks) => tasks,
        Err(message) => {
            return Err(message);
        },
    };
    let ghost models = task_models(tasks@);
    let schedule = match optimize_schedule(&tasks) {
        Ok(schedule) => schedule,
        Err(message) => {
            return Err(message);
        },
    };
    proof {
        tasks_of_is_right(csv@);
        assert forall|i: int| 0 <= i < models.len() implies (#[trigger] models[i]).phases.len()
            <= usize::MAX by {
            assert(tasks@[i].phases.len() == tasks@[i].phases@.len());
        }
        best_schedule_is_best(models, Seq::empty());
        let entries = schedule@.entries;
        assert forall|i: int| 0 <= i < entries.len() implies (#[trigger] entries[i]).end_minutes
            >= 1 by {
            let task = models[entries[i].task_index as int];
            assert(task.phases[entries[i].phase_index as int].duration_minutes > 0);
        }
    }
    let csv_text = write_schedule(&tasks, &schedule);
    let chart = render_gantt_chart(&tasks, &schedule);
    Ok(ScheduleOutput { csv: csv_text, chart })
}

} // verus!
