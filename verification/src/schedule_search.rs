//! The search for the best schedule.
use vstd::prelude::*;

use crate::ordering::is_before;
use crate::schedule_model::{
    PhaseKind, Schedule, ScheduleEntry, ScheduleState, Task, MAX_SEARCH_NODES,
};

verus! {

use crate::ordering::texts_before;
use crate::schedule_model::{
    advance, advance_keeps, advance_until, advance_until_keeps, all_completed, begin_auto, best_of,
    better, can_start, dependencies_in_range, do_manual, do_manual_keeps, earliest_end,
    entries_in_range, end_autos, end_manual, end_phase, entry_now, explore, explore_manuals,
    failure_text, initial_state, latest, manual_ids, mark_completed, phases_left_bounds, ready,
    schedule_of, some_manual_ready, start_autos, start_autos_keeps, state_fits, task_models, weight,
    weighted_sum, work_left, Explored, ScheduleFailure, ScheduleModel, StateModel, TaskModel,
};

/// A copy of a list of plain values.
pub fn copied<T: Copy>(items: &Vec<T>) -> (copy: Vec<T>)
    ensures
        copy@ == items@,
{
    let mut copy: Vec<T> = Vec::new();
    for i in 0..items.len()
        invariant
            copy@ == items@.take(i as int),
    {
        copy.push(items[i]);
        assert(items@.take(i + 1) == items@.take(i as int).push(items@[i as int]));
    }
    assert(items@.take(items@.len() as int) == items@);
    copy
}

impl Clone for ScheduleState {
    fn clone(&self) -> (copy: Self)
        ensures
            copy@ == self@,
    {
        ScheduleState {
            time_minutes: self.time_minutes,
            phase_indices: copied(&self.phase_indices),
            auto_end_minutes: copied(&self.auto_end_minutes),
            completion_minutes: copied(&self.completion_minutes),
            entries: copied(&self.entries),
        }
    }
}

/// Whether the task has begun or all that it depends on is completed.
pub fn task_can_start(tasks: &Vec<Task>, state: &ScheduleState, task_index: usize) -> (can: bool)
    requires
        dependencies_in_range(task_models(tasks@)),
        state_fits(task_models(tasks@), state@),
        task_index < tasks@.len(),
    ensures
        can == can_start(task_models(tasks@), state@, task_index as int),
{
    if state.phase_indices[task_index] > 0 {
        return true;
    }
    let task = &tasks[task_index];
    let ghost models = task_models(tasks@);
    for j in 0..task.dependencies.len()
        invariant
            dependencies_in_range(models),
            state_fits(models, state@),
            models == task_models(tasks@),
            task_index < tasks@.len(),
            task == tasks@[task_index as int],
            state@.phase[task_index as int] == 0,
            forall|k: int|
                0 <= k < j ==> state@.completion[#[trigger] models[task_index as int].dependencies[k] as int] is Some,
    {
        let dependency = task.dependencies[j];
        assert(models[task_index as int].dependencies[j as int] == dependency);
        if state.completion_minutes[dependency].is_none() {
            return false;
        }
    }
    true
}

/// Whether the task has come to a phase of the given kind that can begin now.
fn phase_is_ready(
    tasks: &Vec<Task>,
    state: &ScheduleState,
    task_index: usize,
    kind: PhaseKind,
) -> (is_ready: bool)
    requires
        dependencies_in_range(task_models(tasks@)),
        state_fits(task_models(tasks@), state@),
        task_index < tasks@.len(),
    ensures
        is_ready == ready(task_models(tasks@), state@, task_index as int, kind),
{
    let phase_index = state.phase_indices[task_index];
    if phase_index >= tasks[task_index].phases.len() {
        return false;
    }
    tasks[task_index].phases[phase_index].kind == kind
        && state.auto_end_minutes[task_index].is_none() && task_can_start(tasks, state, task_index)
}

/// The tasks of which a manual phase can begin now, in order.
pub fn available_manual_tasks(tasks: &Vec<Task>, state: &ScheduleState) -> (available: Vec<usize>)
    requires
        dependencies_in_range(task_models(tasks@)),
        state_fits(task_models(tasks@), state@),
    ensures
        available@ == manual_tasks_from(task_models(tasks@), state@, 0),
{
    let mut available: Vec<usize> = Vec::new();
    let ghost models = task_models(tasks@);
    let mut index: usize = tasks.len();
    while index > 0
        invariant
            models == task_models(tasks@),
            dependencies_in_range(models),
            state_fits(models, state@),
            index <= tasks@.len(),
            available@.reverse() == manual_tasks_from(models, state@, index as int),
        decreases index,
    {
        index = index - 1;
        let ghost before = available@;
        if phase_is_ready(tasks, state, index, PhaseKind::Manual) {
            available.push(index);
            assert(available@.reverse() == seq![index] + before.reverse());
        }
    }
    reversed(&available)
}

/// The list from its last item to its first.
fn reversed(items: &Vec<usize>) -> (turned: Vec<usize>)
    ensures
        turned@ == items@.reverse(),
{
    let mut turned: Vec<usize> = Vec::new();
    let mut i: usize = items.len();
    while i > 0
        invariant
            i <= items@.len(),
            turned@ == items@.reverse().take(items@.len() - i),
        decreases i,
    {
        i = i - 1;
        turned.push(items[i]);
        assert(items@.reverse().take(items@.len() - i) == items@.reverse().take(
            items@.len() - i - 1,
        ).push(items@[i as int]));
    }
    assert(items@.reverse().take(items@.len() as int) == items@.reverse());
    turned
}

/// The tasks from `from` on of which a manual phase can begin now, in order.
pub open spec fn manual_tasks_from(
    tasks: Seq<TaskModel>,
    state: StateModel,
    from: int,
) -> Seq<usize>
    decreases tasks.len() - from,
{
    if from < 0 || from >= tasks.len() {
        Seq::empty()
    } else if ready(tasks, state, from, PhaseKind::Manual) {
        seq![from as usize] + manual_tasks_from(tasks, state, from + 1)
    } else {
        manual_tasks_from(tasks, state, from + 1)
    }
}

/// Begins every automatic phase that can begin now.
pub fn start_automatic_phases(tasks: &Vec<Task>, state: &mut ScheduleState) -> (result: Result<
    (),
    String,
>)
    requires
        dependencies_in_range(task_models(tasks@)),
        state_fits(task_models(tasks@), old(state)@),
    ensures
        match start_autos(task_models(tasks@), old(state)@, 0) {
            Some(later) => result is Ok && final(state)@ == later,
            None => result matches Err(message) && message@ == failure_text(
                ScheduleFailure::TimeOverflow,
            ),
        },
{
    let ghost models = task_models(tasks@);
    let ghost start = state@;
    let mut index: usize = 0;
    while index < tasks.len()
        invariant
            models == task_models(tasks@),
            dependencies_in_range(models),
            state_fits(models, state@),
            index <= tasks@.len(),
            start == old(state)@,
            start_autos(models, start, 0) == start_autos(models, state@, index as int),
        decreases tasks@.len() - index,
    {
        if phase_is_ready(tasks, state, index, PhaseKind::Auto) {
            let phase_index = state.phase_indices[index];
            let duration = tasks[index].phases[phase_index].duration_minutes;
            let ghost before = state@;
            match state.time_minutes.checked_add(duration) {
                None => {
                    return Err("schedule time overflow".to_owned());
                },
                Some(end_minutes) => {
                    state.entries.push(
                        ScheduleEntry {
                            task_index: index,
                            phase_index,
                            kind: PhaseKind::Auto,
                            start_minutes: state.time_minutes,
                            end_minutes,
                        },
                    );
                    state.auto_end_minutes.set(index, Some(end_minutes));
                },
            }
            assert(state@ == begin_auto(models, before, index as int));
        }
        index = index + 1;
    }
    Ok(())
}

/// Notes the time of completion if no phase of the task is left.
pub fn mark_completed_if_finished(tasks: &Vec<Task>, state: &mut ScheduleState, task_index: usize)
    requires
        task_index < tasks@.len(),
        old(state).phase_indices@.len() == tasks@.len(),
        old(state).completion_minutes@.len() == tasks@.len(),
    ensures
        final(state)@ == mark_completed(task_models(tasks@), old(state)@, task_index as int),
{
    if state.phase_indices[task_index] == tasks[task_index].phases.len() {
        state.completion_minutes.set(task_index, Some(state.time_minutes));
    }
    assert(state@ == mark_completed(task_models(tasks@), old(state)@, task_index as int));
}

/// The earliest end of an automatic phase.
pub fn next_auto_end(state: &ScheduleState) -> (next: Option<u64>)
    ensures
        next == earliest_end(state@.auto_end),
{
    let mut next: Option<u64> = None;
    let ghost ends = state@.auto_end;
    for i in 0..state.auto_end_minutes.len()
        invariant
            ends == state@.auto_end,
            next == earliest_end(ends.take(i as int)),
    {
        let ghost before = next;
        assert(ends.take(i + 1).drop_last() == ends.take(i as int));
        if let Some(end) = state.auto_end_minutes[i] {
            match next {
                None => {
                    next = Some(end);
                },
                Some(earliest) => {
                    if end < earliest {
                        next = Some(end);
                    }
                },
            }
        }
    }
    assert(ends.take(ends.len() as int) == ends);
    next
}

/// Comes to a time at which automatic phases end.
pub fn advance_to(tasks: &Vec<Task>, state: &mut ScheduleState, time_minutes: u64) -> (result: Result<
    (),
    String,
>)
    requires
        dependencies_in_range(task_models(tasks@)),
        state_fits(task_models(tasks@), old(state)@),
    ensures
        match advance(task_models(tasks@), old(state)@, time_minutes) {
            Some(later) => result is Ok && final(state)@ == later,
            None => result matches Err(message) && message@ == failure_text(
                ScheduleFailure::TimeOverflow,
            ),
        },
{
    let ghost models = task_models(tasks@);
    state.time_minutes = time_minutes;
    let ghost there = state@;
    assert(there == StateModel { time: time_minutes, ..old(state)@ });
    let mut index: usize = 0;
    while index < tasks.len()
        invariant
            models == task_models(tasks@),
            dependencies_in_range(models),
            state_fits(models, state@),
            state@.time == time_minutes,
            index <= tasks@.len(),
            end_autos(models, there, 0) == end_autos(models, state@, index as int),
        decreases tasks@.len() - index,
    {
        let ends_now = match state.auto_end_minutes[index] {
            Some(end) => end == time_minutes,
            None => false,
        };
        if ends_now {
            let ghost before = state@;
            state.auto_end_minutes.set(index, None);
            let phase_index = state.phase_indices[index];
            state.phase_indices.set(index, phase_index + 1);
            mark_completed_if_finished(tasks, state, index);
            assert(state@ == end_phase(models, before, index as int));
            assert(state_fits(models, state@));
        }
        index = index + 1;
    }
    start_automatic_phases(tasks, state)
}

/// Comes to time `end_minutes`, all automatic phases that end until then having ended.
pub fn advance_automatic_work_until(
    tasks: &Vec<Task>,
    state: &mut ScheduleState,
    end_minutes: u64,
) -> (result: Result<(), String>)
    requires
        dependencies_in_range(task_models(tasks@)),
        state_fits(task_models(tasks@), old(state)@),
    ensures
        match advance_until(task_models(tasks@), old(state)@, end_minutes) {
            Some(later) => result is Ok && final(state)@ == later,
            None => result matches Err(message) && message@ == failure_text(
                ScheduleFailure::TimeOverflow,
            ),
        },
{
    let ghost models = task_models(tasks@);
    let ghost start = state@;
    let mut pending = next_auto_end(state);
    while pending.is_some() && pending.unwrap() <= end_minutes
        invariant
            models == task_models(tasks@),
            dependencies_in_range(models),
            state_fits(models, state@),
            pending == earliest_end(state@.auto_end),
            start == old(state)@,
            advance_until(models, start, end_minutes) == advance_until(
                models,
                state@,
                end_minutes,
            ),
        decreases work_left(models, state@),
    {
        let next = pending.unwrap();
        proof {
            phases_left_bounds(models, state@.phase, models.len() as int);
            advance_keeps(models, state@, next);
        }
        match advance_to(tasks, state, next) {
            Ok(()) => {},
            Err(message) => {
                return Err(message);
            },
        }
        pending = next_auto_end(state);
    }
    let ghost before = state@;
    state.time_minutes = end_minutes;
    assert(state@ == StateModel { time: end_minutes, ..before });
    Ok(())
}

/// Does the manual phase that the task has come to.
pub fn run_manual_phase(tasks: &Vec<Task>, state: &mut ScheduleState, task_index: usize) -> (result: Result<
    (),
    String,
>)
    requires
        dependencies_in_range(task_models(tasks@)),
        state_fits(task_models(tasks@), old(state)@),
        task_index < tasks@.len(),
        ready(task_models(tasks@), old(state)@, task_index as int, PhaseKind::Manual),
    ensures
        match do_manual(task_models(tasks@), old(state)@, task_index as int) {
            Some(later) => result is Ok && final(state)@ == later,
            None => result matches Err(message) && message@ == failure_text(
                ScheduleFailure::TimeOverflow,
            ),
        },
{
    let ghost models = task_models(tasks@);
    let ghost start = state@;
    let phase_index = state.phase_indices[task_index];
    let duration = tasks[task_index].phases[phase_index].duration_minutes;
    let end_minutes = match state.time_minutes.checked_add(duration) {
        None => {
            return Err("schedule time overflow".to_owned());
        },
        Some(end_minutes) => end_minutes,
    };
    state.entries.push(
        ScheduleEntry {
            task_index,
            phase_index,
            kind: PhaseKind::Manual,
            start_minutes: state.time_minutes,
            end_minutes,
        },
    );
    let ghost begun = state@;
    proof {
        let entry = entry_now(models, start, task_index as int, PhaseKind::Manual);
        assert(begun == StateModel { entries: start.entries.push(entry), ..start });
        advance_until_keeps(models, begun, end_minutes, task_index as int);
    }
    match advance_automatic_work_until(tasks, state, end_minutes) {
        Ok(()) => {},
        Err(message) => {
            return Err(message);
        },
    }
    let ghost later = state@;
    let reached = state.phase_indices[task_index];
    state.phase_indices.set(task_index, reached + 1);
    mark_completed_if_finished(tasks, state, task_index);
    assert(state@ == end_manual(models, later, task_index as int));
    assert(state_fits(models, state@));
    start_automatic_phases(tasks, state)
}

/// The weights are at least those of the lowest priority, and no weighted sum of completion
/// times can be too large.
pub open spec fn weights_fit(tasks: Seq<TaskModel>) -> bool {
    &&& forall|i: int| 0 <= i < tasks.len() ==> (#[trigger] tasks[i]).priority >= 1
    &&& total_weight(tasks, tasks.len() as int) * u64::MAX <= u128::MAX
}

/// The sum of the weights of the first `count` tasks.
pub open spec fn total_weight(tasks: Seq<TaskModel>, count: int) -> int
    decreases count,
{
    if count <= 0 {
        0
    } else {
        total_weight(tasks, count - 1) + weight(tasks[count - 1].priority as int)
    }
}

proof fn weight_positive(priority: int)
    ensures
        weight(priority) >= 1,
    decreases priority,
{
    if priority > 1 {
        weight_positive(priority - 1);
    }
}

proof fn weight_grows(low: int, high: int)
    requires
        low <= high,
    ensures
        weight(low) <= weight(high),
    decreases high - low,
{
    if low < high {
        weight_positive(high - 1);
        weight_grows(low, high - 1);
    }
}

proof fn total_weight_grows(tasks: Seq<TaskModel>, low: int, high: int)
    requires
        0 <= low <= high,
    ensures
        0 <= total_weight(tasks, low) <= total_weight(tasks, high),
    decreases high,
{
    if low < high {
        weight_positive(tasks[high - 1].priority as int);
        total_weight_grows(tasks, low, high - 1);
    } else if high > 0 {
        weight_positive(tasks[high - 1].priority as int);
        total_weight_grows(tasks, low - 1, high - 1);
    }
}

proof fn weighted_sum_bounds(tasks: Seq<TaskModel>, completion: Seq<u64>, count: int)
    requires
        count <= completion.len(),
    ensures
        0 <= weighted_sum(tasks, completion, count) <= total_weight(tasks, count) * u64::MAX,
    decreases count,
{
    if count > 0 {
        weighted_sum_bounds(tasks, completion, count - 1);
        let w = weight(tasks[count - 1].priority as int);
        let c = completion[count - 1] as int;
        let t = total_weight(tasks, count - 1);
        weight_positive(tasks[count - 1].priority as int);
        assert(0 <= w * c <= w * u64::MAX) by (nonlinear_arith)
            requires
                w >= 1,
                0 <= c <= u64::MAX,
        ;
        assert((t + w) * u64::MAX == t * u64::MAX + w * u64::MAX) by (nonlinear_arith);
    }
}

/// Three times as much for each step of priority.
pub fn priority_weight(priority: u8) -> (result: u128)
    requires
        priority >= 1,
        weight(priority as int) <= u128::MAX,
    ensures
        result == weight(priority as int),
{
    let mut result: u128 = 1;
    let mut step: u8 = 1;
    while step < priority
        invariant
            1 <= step <= priority,
            result == weight(step as int),
            weight(priority as int) <= u128::MAX,
        decreases priority - step,
    {
        proof {
            weight_grows(step + 1, priority as int);
        }
        result = result * 3;
        step = step + 1;
    }
    result
}

/// The schedule that a state in which every task is completed stands for.
pub fn finish_schedule(tasks: &Vec<Task>, state: ScheduleState) -> (result: Result<
    Schedule,
    String,
>)
    requires
        weights_fit(task_models(tasks@)),
        state@.completion.len() == tasks@.len(),
    ensures
        match result {
            Ok(schedule) => all_completed(state@) && schedule@ == schedule_of(
                task_models(tasks@),
                state@,
            ),
            Err(message) => !all_completed(state@) && message@
                == "schedule contains unfinished tasks"@,
        },
{
    let ghost models = task_models(tasks@);
    let mut completion_minutes: Vec<u64> = Vec::new();
    let mut weighted: u128 = 0;
    let mut makespan: u64 = 0;
    for i in 0..tasks.len()
        invariant
            models == task_models(tasks@),
            weights_fit(models),
            state@.completion.len() == tasks@.len(),
            completion_minutes@.len() == i,
            forall|k: int| 0 <= k < i ==> #[trigger] state@.completion[k] is Some,
            forall|k: int|
                0 <= k < i ==> #[trigger] completion_minutes@[k] == state@.completion[k]->0,
            weighted == weighted_sum(models, completion_minutes@, i as int),
            makespan == latest(completion_minutes@),
    {
        match state.completion_minutes[i] {
            None => {
                assert(state@.completion[i as int] is None);
                return Err("schedule contains unfinished tasks".to_owned());
            },
            Some(completion) => {
                let ghost before = completion_minutes@;
                completion_minutes.push(completion);
                let ghost after = completion_minutes@;
                let priority = tasks[i].priority;
                assert(models[i as int].priority == priority);
                let ghost w = weight(priority as int);
                proof {
                    weighted_sum_same(models, before, after, i as int);
                    weighted_sum_bounds(models, after, i + 1);
                    total_weight_grows(models, i + 1, models.len() as int);
                    total_weight_grows(models, i as int, i + 1);
                    weight_positive(priority as int);
                    let part = total_weight(models, i + 1);
                    let all = total_weight(models, models.len() as int);
                    assert(part * u64::MAX <= all * u64::MAX) by (nonlinear_arith)
                        requires
                            part <= all,
                    ;
                    assert(w <= part);
                    assert(w <= w * u64::MAX <= part * u64::MAX) by (nonlinear_arith)
                        requires
                            1 <= w <= part,
                    ;
                    let c = completion as int;
                    assert(0 <= w * c <= w * u64::MAX) by (nonlinear_arith)
                        requires
                            1 <= w,
                            0 <= c <= u64::MAX,
                    ;
                    assert(after.drop_last() == before);
                }
                weighted = weighted + priority_weight(priority) * (completion as u128);
                if completion > makespan {
                    makespan = completion;
                }
            },
        }
    }
    assert(completion_minutes@ =~= Seq::new(
        state@.completion.len(),
        |i: int| state@.completion[i]->0,
    ));
    Ok(
        Schedule {
            entries: state.entries,
            completion_minutes,
            weighted_completion_minutes: weighted,
            makespan_minutes: makespan,
        },
    )
}

proof fn weighted_sum_same(
    tasks: Seq<TaskModel>,
    left: Seq<u64>,
    right: Seq<u64>,
    count: int,
)
    requires
        forall|i: int| 0 <= i < count ==> left[i] == right[i],
    ensures
        weighted_sum(tasks, left, count) == weighted_sum(tasks, right, count),
    decreases count,
{
    if count > 0 {
        weighted_sum_same(tasks, left, right, count - 1);
    }
}

/// The ids of the tasks of the manual entries, in order.
pub fn manual_task_ids<'a>(schedule: &Schedule, tasks: &'a Vec<Task>) -> (ids: Vec<&'a str>)
    requires
        entries_in_range(schedule@.entries, tasks@.len()),
    ensures
        ids@.map_values(|id: &str| id@) == manual_ids(schedule@.entries, task_models(tasks@)),
{
    let mut ids: Vec<&'a str> = Vec::new();
    let ghost models = task_models(tasks@);
    let ghost entries = schedule@.entries;
    let ghost text = |id: &str| id@;
    for i in 0..schedule.entries.len()
        invariant
            entries == schedule.entries@,
            models == task_models(tasks@),
            entries_in_range(entries, tasks@.len()),
            text == (|id: &str| id@),
            ids@.map_values(text) == manual_ids(entries.take(i as int), models),
    {
        assert(entries.take(i + 1).drop_last() == entries.take(i as int));
        let entry = schedule.entries[i];
        assert(entries[i as int] == entry);
        if entry.kind == PhaseKind::Manual {
            let ghost before = ids@;
            ids.push(tasks[entry.task_index].id.as_str());
            assert(ids@.map_values(text) == before.map_values(text).push(
                models[entry.task_index as int].id,
            ));
        }
    }
    assert(entries.take(entries.len() as int) == entries);
    ids
}

/// Whether the list `left` comes strictly before the list `right`.
fn ids_before(left: &Vec<&str>, right: &Vec<&str>) -> (before: bool)
    ensures
        before == texts_before(
            left@.map_values(|id: &str| id@),
            right@.map_values(|id: &str| id@),
        ),
{
    let ghost a = left@.map_values(|id: &str| id@);
    let ghost b = right@.map_values(|id: &str| id@);
    let mut i: usize = 0;
    assert(a.skip(0) == a);
    assert(b.skip(0) == b);
    while i < left.len() && i < right.len() && crate::text::same_text(left[i], right[i])
        invariant
            a == left@.map_values(|id: &str| id@),
            b == right@.map_values(|id: &str| id@),
            i <= left@.len(),
            i <= right@.len(),
            texts_before(a, b) == texts_before(a.skip(i as int), b.skip(i as int)),
        decreases left.len() - i,
    {
        assert(a.skip(i as int).drop_first() == a.skip(i + 1));
        assert(b.skip(i as int).drop_first() == b.skip(i + 1));
        i = i + 1;
    }
    if i >= right.len() {
        false
    } else if i >= left.len() {
        true
    } else {
        is_before(left[i], right[i])
    }
}

/// Whether the candidate is strictly better than the current schedule.
pub fn schedule_is_better(candidate: &Schedule, current: &Schedule, tasks: &Vec<Task>) -> (is_better: bool)
    requires
        entries_in_range(candidate@.entries, tasks@.len()),
        entries_in_range(current@.entries, tasks@.len()),
    ensures
        is_better == better(candidate@, current@, task_models(tasks@)),
{
    if candidate.weighted_completion_minutes != current.weighted_completion_minutes {
        return candidate.weighted_completion_minutes < current.weighted_completion_minutes;
    }
    if candidate.makespan_minutes != current.makespan_minutes {
        return candidate.makespan_minutes < current.makespan_minutes;
    }
    let candidate_ids = manual_task_ids(candidate, tasks);
    let current_ids = manual_task_ids(current, tasks);
    ids_before(&candidate_ids, &current_ids)
}

/// What a schedule that may be missing says.
pub open spec fn schedule_model(schedule: Option<Schedule>) -> Option<ScheduleModel> {
    match schedule {
        Some(schedule) => Some(schedule@),
        None => None,
    }
}

/// The search from `from` on goes to the first of the tasks whose manual phase can begin.
proof fn explore_manuals_skips(
    tasks: Seq<TaskModel>,
    state: StateModel,
    from: int,
    visited: nat,
)
    requires
        state_fits(tasks, state),
        0 <= from,
    ensures
        ({
            let list = manual_tasks_from(tasks, state, from);
            if list.len() == 0 {
                explore_manuals(tasks, state, from, visited) == (Explored {
                    visited,
                    found: Seq::empty(),
                    failure: None,
                })
            } else {
                &&& from <= list[0] < tasks.len()
                &&& ready(tasks, state, list[0] as int, PhaseKind::Manual)
                &&& explore_manuals(tasks, state, from, visited) == explore_manuals(
                    tasks,
                    state,
                    list[0] as int,
                    visited,
                )
                &&& manual_tasks_from(tasks, state, list[0] + 1) == list.skip(1)
            }
        }),
    decreases tasks.len() - from,
{
    if from < tasks.len() {
        let rest = manual_tasks_from(tasks, state, from + 1);
        explore_manuals_skips(tasks, state, from + 1, visited);
        if ready(tasks, state, from, PhaseKind::Manual) {
            assert((seq![from as usize] + rest).skip(1) == rest);
        }
    }
}

/// The list of the tasks whose manual phase can begin is empty just where there is none.
proof fn manual_tasks_empty(tasks: Seq<TaskModel>, state: StateModel, from: int)
    requires
        0 <= from,
    ensures
        manual_tasks_from(tasks, state, from).len() == 0 <==> forall|i: int|
            from <= i < tasks.len() ==> !#[trigger] ready(tasks, state, i, PhaseKind::Manual),
    decreases tasks.len() - from,
{
    if from < tasks.len() {
        manual_tasks_empty(tasks, state, from + 1);
        assert forall|i: int|
            manual_tasks_from(tasks, state, from).len() == 0 && from <= i
                < tasks.len() implies !#[trigger] ready(tasks, state, i, PhaseKind::Manual) by {
            if i > from {
                assert(from + 1 <= i);
            }
        }
    }
}

/// The first of the best can be found in two steps.
proof fn best_of_both(
    best: Option<ScheduleModel>,
    first: Seq<ScheduleModel>,
    second: Seq<ScheduleModel>,
    tasks: Seq<TaskModel>,
)
    ensures
        best_of(best, first + second, tasks) == best_of(
            best_of(best, first, tasks),
            second,
            tasks,
        ),
    decreases second.len(),
{
    if second.len() == 0 {
        assert(first + second == first);
    } else {
        best_of_both(best, first, second.drop_last(), tasks);
        assert((first + second).drop_last() == first + second.drop_last());
    }
}

/// A search that nothing stops finds a schedule.
pub proof fn explore_finds(tasks: Seq<TaskModel>, state: StateModel, visited: nat)
    requires
        state_fits(tasks, state),
    ensures
        ({
            let explored = explore(tasks, state, visited);
            explored.failure is None ==> explored.found.len() > 0
        }),
    decreases work_left(tasks, state), tasks.len() + 1,
{
    if visited + 1 <= MAX_SEARCH_NODES && !all_completed(state) {
        phases_left_bounds(tasks, state.phase, tasks.len() as int);
        explore_manuals_finds(tasks, state, 0, visited + 1);
        let done = explore_manuals(tasks, state, 0, visited + 1);
        if let Some(next) = earliest_end(state.auto_end) {
            advance_keeps(tasks, state, next);
            if let Some(later) = advance(tasks, state, next) {
                explore_finds(tasks, later, done.visited);
            }
        } else if some_manual_ready(tasks, state) {
            let i = choose|i: int|
                0 <= i < tasks.len() && #[trigger] ready(tasks, state, i, PhaseKind::Manual);
            assert(ready(tasks, state, i, PhaseKind::Manual));
        }
    }
}

proof fn explore_manuals_finds(
    tasks: Seq<TaskModel>,
    state: StateModel,
    from: int,
    visited: nat,
)
    requires
        state_fits(tasks, state),
        0 <= from,
    ensures
        ({
            let explored = explore_manuals(tasks, state, from, visited);
            explored.failure is None && (exists|i: int|
                from <= i < tasks.len() && #[trigger] ready(tasks, state, i, PhaseKind::Manual))
                ==> explored.found.len() > 0
        }),
    decreases work_left(tasks, state), tasks.len() - from,
{
    if from < tasks.len() {
        if ready(tasks, state, from, PhaseKind::Manual) {
            do_manual_keeps(tasks, state, from);
            if let Some(later) = do_manual(tasks, state, from) {
                explore_finds(tasks, later, visited);
            }
        } else {
            explore_manuals_finds(tasks, state, from + 1, visited);
        }
    }
}

/// Visits what can be reached from the state and keeps the first of the best schedules.
pub fn search(
    tasks: &Vec<Task>,
    state: ScheduleState,
    search_nodes: &mut usize,
    best: &mut Option<Schedule>,
) -> (result: Result<(), String>)
    requires
        dependencies_in_range(task_models(tasks@)),
        weights_fit(task_models(tasks@)),
        state_fits(task_models(tasks@), state@),
        *old(best) matches Some(schedule) ==> entries_in_range(
            schedule@.entries,
            tasks@.len(),
        ),
        *old(search_nodes) < usize::MAX,
    ensures
        ({
            let explored = explore(task_models(tasks@), state@, *old(search_nodes) as nat);
            &&& *final(search_nodes) == explored.visited
            &&& schedule_model(*final(best)) == best_of(
                schedule_model(*old(best)),
                explored.found,
                task_models(tasks@),
            )
            &&& match result {
                Ok(()) => explored.failure is None,
                Err(message) => explored.failure matches Some(failure) && message@
                    == failure_text(failure),
            }
        }),
        *final(best) matches Some(schedule) ==> entries_in_range(
            schedule@.entries,
            tasks@.len(),
        ),
        result is Ok ==> *final(search_nodes) <= MAX_SEARCH_NODES,
    decreases work_left(task_models(tasks@), state@),
{
    let ghost models = task_models(tasks@);
    let ghost start = state@;
    let ghost best_before = schedule_model(*best);
    let ghost first_visited = (*search_nodes + 1) as nat;
    proof {
        phases_left_bounds(models, start.phase, models.len() as int);
    }
    *search_nodes = *search_nodes + 1;
    if *search_nodes > MAX_SEARCH_NODES {
        return Err("task schedule optimization exceeded 1000000 search states".to_owned());
    }
    if every_completed(&state) {
        let schedule = match finish_schedule(tasks, state) {
            Ok(schedule) => schedule,
            Err(message) => {
                return Err(message);
            },
        };
        let ghost found = seq![schedule@];
        proof {
            reveal_with_fuel(best_of, 2);
            assert(found.drop_last() == Seq::<ScheduleModel>::empty());
        }
        let improves = match best {
            None => true,
            Some(current) => schedule_is_better(&schedule, current, tasks),
        };
        if improves {
            *best = Some(schedule);
        }
        return Ok(());
    }
    let manual_tasks = available_manual_tasks(tasks, &state);
    let ghost mut from: int = 0;
    let ghost mut found_so_far: Seq<ScheduleModel> = Seq::empty();
    let ghost all = explore_manuals(models, start, 0, first_visited);
    assert(manual_tasks@.skip(0) == manual_tasks@);
    assert(all.found == found_so_far + all.found);
    for position in 0..manual_tasks.len()
        invariant
            models == task_models(tasks@),
            start == state@,
            dependencies_in_range(models),
            weights_fit(models),
            state_fits(models, start),
            !all_completed(start),
            best_before == schedule_model(*old(best)),
            *best matches Some(schedule) ==> entries_in_range(schedule@.entries, tasks@.len()),
            *search_nodes <= MAX_SEARCH_NODES,
            0 <= from,
            manual_tasks_from(models, start, from) == manual_tasks@.skip(position as int),
            schedule_model(*best) == best_of(best_before, found_so_far, models),
            first_visited == *old(search_nodes) + 1,
            first_visited <= MAX_SEARCH_NODES,
            all == explore_manuals(models, start, 0, first_visited),
            ({
                let rest = explore_manuals(models, start, from, *search_nodes as nat);
                &&& all.found == found_so_far + rest.found
                &&& all.visited == rest.visited
                &&& all.failure == rest.failure
            }),
    {
        let task_index = manual_tasks[position];
        let ghost visited = *search_nodes as nat;
        proof {
            explore_manuals_skips(models, start, from, visited);
            assert(manual_tasks@.skip(position as int)[0] == task_index);
            assert(manual_tasks@.skip(position as int).skip(1) == manual_tasks@.skip(
                position + 1,
            ));
            do_manual_keeps(models, start, task_index as int);
        }
        let mut next = state.clone();
        match run_manual_phase(tasks, &mut next, task_index) {
            Ok(()) => {},
            Err(message) => {
                assert(all.found == found_so_far);
                return Err(message);
            },
        }
        let ghost done = explore(models, next@, visited);
        let searched = search(tasks, next, search_nodes, best);
        proof {
            best_of_both(best_before, found_so_far, done.found, models);
        }
        match searched {
            Ok(()) => {},
            Err(message) => {
                assert(all.found == found_so_far + done.found);
                return Err(message);
            },
        }
        proof {
            let rest = explore_manuals(models, start, task_index + 1, done.visited);
            assert(found_so_far + (done.found + rest.found) == (found_so_far + done.found)
                + rest.found);
            found_so_far = found_so_far + done.found;
            from = task_index + 1;
        }
    }
    proof {
        explore_manuals_skips(models, start, from, *search_nodes as nat);
        manual_tasks_empty(models, start, 0);
        assert(all.found == found_so_far);
        assert(some_manual_ready(models, start) <==> manual_tasks@.len() > 0);
    }
    if let Some(next_end) = next_auto_end(&state) {
        proof {
            advance_keeps(models, start, next_end);
        }
        let mut next = state;
        match advance_to(tasks, &mut next, next_end) {
            Ok(()) => {},
            Err(message) => {
                return Err(message);
            },
        }
        let ghost rest = explore(models, next@, all.visited);
        let searched = search(tasks, next, search_nodes, best);
        proof {
            best_of_both(best_before, found_so_far, rest.found, models);
        }
        searched
    } else if manual_tasks.len() == 0 {
        Err("task dependencies contain a cycle".to_owned())
    } else {
        Ok(())
    }
}

/// Whether every task is completed.
fn every_completed(state: &ScheduleState) -> (every: bool)
    ensures
        every == all_completed(state@),
{
    for i in 0..state.completion_minutes.len()
        invariant
            forall|k: int| 0 <= k < i ==> #[trigger] state@.completion[k] is Some,
    {
        if state.completion_minutes[i].is_none() {
            assert(state@.completion[i as int] is None);
            return false;
        }
    }
    true
}

/// The best schedule of the tasks.
pub fn optimize_schedule(tasks: &Vec<Task>) -> (result: Result<Schedule, String>)
    requires
        dependencies_in_range(task_models(tasks@)),
        weights_fit(task_models(tasks@)),
    ensures
        match start_autos(task_models(tasks@), initial_state(task_models(tasks@)), 0) {
            None => result matches Err(message) && message@ == failure_text(
                ScheduleFailure::TimeOverflow,
            ),
            Some(begun) => {
                let explored = explore(task_models(tasks@), begun, 0);
                match result {
                    Ok(schedule) => explored.failure is None && best_of(
                        None,
                        explored.found,
                        task_models(tasks@),
                    ) == Some(schedule@),
                    Err(message) => explored.failure matches Some(failure) && message@
                        == failure_text(failure),
                }
            },
        },
{
    let ghost models = task_models(tasks@);
    let mut phase_indices: Vec<usize> = Vec::new();
    let mut auto_end_minutes: Vec<Option<u64>> = Vec::new();
    let mut completion_minutes: Vec<Option<u64>> = Vec::new();
    for i in 0..tasks.len()
        invariant
            phase_indices@ == Seq::new(i as nat, |k: int| 0usize),
            auto_end_minutes@ == Seq::new(i as nat, |k: int| None::<u64>),
            completion_minutes@ == Seq::new(i as nat, |k: int| None::<u64>),
    {
        phase_indices.push(0);
        auto_end_minutes.push(None);
        completion_minutes.push(None);
    }
    let mut state = ScheduleState {
        time_minutes: 0,
        phase_indices,
        auto_end_minutes,
        completion_minutes,
        entries: Vec::new(),
    };
    proof {
        assert(state@ == initial_state(models));
        assert forall|i: int| 0 <= i < models.len() implies #[trigger] state@.phase[i]
            <= models[i].phases.len() <= usize::MAX by {
            assert(tasks@[i].phases.len() == tasks@[i].phases@.len());
        }
        start_autos_keeps(models, state@, 0);
    }
    match start_automatic_phases(tasks, &mut state) {
        Ok(()) => {},
        Err(message) => {
            return Err(message);
        },
    }
    proof {
        explore_finds(models, state@, 0);
    }
    let ghost begun = state@;
    let mut search_nodes: usize = 0;
    let mut best: Option<Schedule> = None;
    match search(tasks, state, &mut search_nodes, &mut best) {
        Ok(()) => {},
        Err(message) => {
            return Err(message);
        },
    }
    match best {
        Some(schedule) => Ok(schedule),
        None => {
            assert(best_of(None, explore(models, begun, 0).found, models) is Some);
            Err("task dependencies cannot be scheduled".to_owned())
        },
    }
}

} // verus!
