//! Tasks made of phases, and what it means to carry them out one decision at a time.
//!
//! One person does the manual phases, one after another; automatic phases run by themselves as
//! soon as they can. The only decisions are which manual phase to do next and whether to wait
//! for the next automatic phase to end instead.
use vstd::prelude::*;

use crate::ordering::texts_before;

verus! {

/// How many states a search visits before it gives up.
pub const MAX_SEARCH_NODES: usize = 1_000_000;

#[derive(Debug, Clone, Copy, PartialEq, Eq, Structural)]
pub enum PhaseKind {
    Manual,
    Auto,
}

#[derive(Debug, Clone, Copy, PartialEq, Eq, Structural)]
pub struct Phase {
    pub kind: PhaseKind,
    pub duration_minutes: u64,
}

#[derive(Debug, Clone, PartialEq)]
pub struct Task {
    pub id: String,
    pub priority: u8,
    pub dependencies: Vec<usize>,
    pub phases: Vec<Phase>,
}

#[derive(Debug, Clone, Copy, PartialEq, Eq, Structural)]
pub struct ScheduleEntry {
    pub task_index: usize,
    pub phase_index: usize,
    pub kind: PhaseKind,
    pub start_minutes: u64,
    pub end_minutes: u64,
}

#[derive(Debug)]
pub struct ScheduleState {
    pub time_minutes: u64,
    pub phase_indices: Vec<usize>,
    pub auto_end_minutes: Vec<Option<u64>>,
    pub completion_minutes: Vec<Option<u64>>,
    pub entries: Vec<ScheduleEntry>,
}

#[derive(Debug, Clone)]
pub struct Schedule {
    pub entries: Vec<ScheduleEntry>,
    pub completion_minutes: Vec<u64>,
    pub weighted_completion_minutes: u128,
    pub makespan_minutes: u64,
}

/// What a [`Task`] says.
#[verifier::ext_equal]
pub struct TaskModel {
    pub id: Seq<char>,
    pub priority: u8,
    pub dependencies: Seq<usize>,
    pub phases: Seq<Phase>,
}

impl View for Task {
    type V = TaskModel;

    open spec fn view(&self) -> TaskModel {
        TaskModel {
            id: self.id@,
            priority: self.priority,
            dependencies: self.dependencies@,
            phases: self.phases@,
        }
    }
}

/// What a list of tasks says.
pub open spec fn task_models(tasks: Seq<Task>) -> Seq<TaskModel> {
    Seq::new(tasks.len(), |i: int| tasks[i]@)
}

/// The work done so far: the time, the phase each task has come to, when the automatic phase
/// that it is in will end, when it was completed, and the phases begun.
#[verifier::ext_equal]
pub struct StateModel {
    pub time: u64,
    pub phase: Seq<usize>,
    pub auto_end: Seq<Option<u64>>,
    pub completion: Seq<Option<u64>>,
    pub entries: Seq<ScheduleEntry>,
}

impl View for ScheduleState {
    type V = StateModel;

    open spec fn view(&self) -> StateModel {
        StateModel {
            time: self.time_minutes,
            phase: self.phase_indices@,
            auto_end: self.auto_end_minutes@,
            completion: self.completion_minutes@,
            entries: self.entries@,
        }
    }
}

/// What a [`Schedule`] says.
#[verifier::ext_equal]
pub struct ScheduleModel {
    pub entries: Seq<ScheduleEntry>,
    pub completion: Seq<u64>,
    pub weighted: int,
    pub makespan: u64,
}

impl View for Schedule {
    type V = ScheduleModel;

    open spec fn view(&self) -> ScheduleModel {
        ScheduleModel {
            entries: self.entries@,
            completion: self.completion_minutes@,
            weighted: self.weighted_completion_minutes as int,
            makespan: self.makespan_minutes,
        }
    }
}

/// Why no schedule is found.
pub enum ScheduleFailure {
    TimeOverflow,
    Cycle,
    TooManyStates,
}

/// The message of a failure.
pub open spec fn failure_text(failure: ScheduleFailure) -> Seq<char> {
    match failure {
        ScheduleFailure::TimeOverflow => "schedule time overflow"@,
        ScheduleFailure::Cycle => "task dependencies contain a cycle"@,
        ScheduleFailure::TooManyStates => "task schedule optimization exceeded 1000000 search states"@,
    }
}

/// Every dependency is the index of a task.
pub open spec fn dependencies_in_range(tasks: Seq<TaskModel>) -> bool {
    forall|i: int, j: int|
        0 <= i < tasks.len() && 0 <= j < tasks[i].dependencies.len()
            ==> #[trigger] tasks[i].dependencies[j] < tasks.len()
}

/// Every entry is of one of the first `count` tasks.
pub open spec fn entries_in_range(entries: Seq<ScheduleEntry>, count: nat) -> bool {
    forall|i: int| 0 <= i < entries.len() ==> (#[trigger] entries[i]).task_index < count
}

/// The state has one place for each task, its entries are of the tasks, no task has come past
/// its last phase, and only a task with a phase left is in an automatic phase.
pub open spec fn state_fits(tasks: Seq<TaskModel>, state: StateModel) -> bool {
    &&& tasks.len() <= usize::MAX
    &&& entries_in_range(state.entries, tasks.len())
    &&& state.phase.len() == tasks.len()
    &&& state.auto_end.len() == tasks.len()
    &&& state.completion.len() == tasks.len()
    &&& forall|i: int|
        0 <= i < tasks.len() ==> #[trigger] state.phase[i] <= tasks[i].phases.len() <= usize::MAX
    &&& forall|i: int|
        0 <= i < tasks.len() && #[trigger] state.auto_end[i] is Some ==> state.phase[i]
            < tasks[i].phases.len()
}

/// The state in which no work has begun.
pub open spec fn initial_state(tasks: Seq<TaskModel>) -> StateModel {
    StateModel {
        time: 0,
        phase: Seq::new(tasks.len(), |i: int| 0usize),
        auto_end: Seq::new(tasks.len(), |i: int| None::<u64>),
        completion: Seq::new(tasks.len(), |i: int| None::<u64>),
        entries: Seq::empty(),
    }
}

/// Whether task `index` has begun or all that it depends on is completed.
pub open spec fn can_start(tasks: Seq<TaskModel>, state: StateModel, index: int) -> bool {
    state.phase[index] > 0 || forall|j: int|
        0 <= j < tasks[index].dependencies.len()
            ==> state.completion[#[trigger] tasks[index].dependencies[j] as int] is Some
}

/// Whether task `index` has come to a phase of the given kind that can begin now.
pub open spec fn ready(
    tasks: Seq<TaskModel>,
    state: StateModel,
    index: int,
    kind: PhaseKind,
) -> bool {
    &&& state.phase[index] < tasks[index].phases.len()
    &&& tasks[index].phases[state.phase[index] as int].kind == kind
    &&& state.auto_end[index] is None
    &&& can_start(tasks, state, index)
}

/// How long the phase is that task `index` has come to.
pub open spec fn current_duration(tasks: Seq<TaskModel>, state: StateModel, index: int) -> int {
    tasks[index].phases[state.phase[index] as int].duration_minutes as int
}

/// The record of the phase of task `index` that begins now.
pub open spec fn entry_now(
    tasks: Seq<TaskModel>,
    state: StateModel,
    index: int,
    kind: PhaseKind,
) -> ScheduleEntry {
    ScheduleEntry {
        task_index: index as usize,
        phase_index: state.phase[index],
        kind,
        start_minutes: state.time,
        end_minutes: (state.time + current_duration(tasks, state, index)) as u64,
    }
}

/// The state once the automatic phase of task `index` has begun.
pub open spec fn begin_auto(tasks: Seq<TaskModel>, state: StateModel, index: int) -> StateModel {
    let entry = entry_now(tasks, state, index, PhaseKind::Auto);
    StateModel {
        auto_end: state.auto_end.update(index, Some(entry.end_minutes)),
        entries: state.entries.push(entry),
        ..state
    }
}

/// The state once every automatic phase of the tasks from `from` on that can begin has begun;
/// `None` if the end of one does not fit.
pub open spec fn start_autos(tasks: Seq<TaskModel>, state: StateModel, from: int) -> Option<
    StateModel,
>
    decreases tasks.len() - from,
{
    if from < 0 || from >= tasks.len() {
        Some(state)
    } else if !ready(tasks, state, from, PhaseKind::Auto) {
        start_autos(tasks, state, from + 1)
    } else if state.time + current_duration(tasks, state, from) > u64::MAX {
        None
    } else {
        start_autos(tasks, begin_auto(tasks, state, from), from + 1)
    }
}

/// The state with task `index` completed now, if no phase of it is left.
pub open spec fn mark_completed(
    tasks: Seq<TaskModel>,
    state: StateModel,
    index: int,
) -> StateModel {
    if state.phase[index] == tasks[index].phases.len() {
        StateModel { completion: state.completion.update(index, Some(state.time)), ..state }
    } else {
        state
    }
}

/// The state once task `index` has come to the end of its phase.
pub open spec fn end_phase(tasks: Seq<TaskModel>, state: StateModel, index: int) -> StateModel {
    mark_completed(
        tasks,
        StateModel {
            auto_end: state.auto_end.update(index, None),
            phase: state.phase.update(index, (state.phase[index] + 1) as usize),
            ..state
        },
        index,
    )
}

/// The state once every automatic phase of the tasks from `from` on that ends now has ended.
pub open spec fn end_autos(tasks: Seq<TaskModel>, state: StateModel, from: int) -> StateModel
    decreases tasks.len() - from,
{
    if from < 0 || from >= tasks.len() {
        state
    } else if state.auto_end[from] == Some(state.time) {
        end_autos(tasks, end_phase(tasks, state, from), from + 1)
    } else {
        end_autos(tasks, state, from + 1)
    }
}

/// The state at a later time at which automatic phases end.
pub open spec fn advance(tasks: Seq<TaskModel>, state: StateModel, time: u64) -> Option<
    StateModel,
> {
    start_autos(tasks, end_autos(tasks, StateModel { time, ..state }, 0), 0)
}

/// The earliest end of an automatic phase.
pub open spec fn earliest_end(auto_end: Seq<Option<u64>>) -> Option<u64>
    decreases auto_end.len(),
{
    if auto_end.len() == 0 {
        None
    } else {
        match (earliest_end(auto_end.drop_last()), auto_end.last()) {
            (None, last) => last,
            (Some(end), None) => Some(end),
            (Some(end), Some(last)) => Some(
                if last < end {
                    last
                } else {
                    end
                },
            ),
        }
    }
}

/// How many phases are left in the first `count` tasks.
pub open spec fn phases_left(tasks: Seq<TaskModel>, phase: Seq<usize>, count: int) -> int
    decreases count,
{
    if count <= 0 {
        0
    } else {
        phases_left(tasks, phase, count - 1) + (tasks[count - 1].phases.len() - phase[count - 1])
    }
}

/// How many phases are left.
pub open spec fn work_left(tasks: Seq<TaskModel>, state: StateModel) -> int {
    phases_left(tasks, state.phase, tasks.len() as int)
}

/// The state at time `end`, all automatic phases that end until then having ended.
pub open spec fn advance_until(tasks: Seq<TaskModel>, state: StateModel, end: u64) -> Option<
    StateModel,
>
    decreases work_left(tasks, state),
    when state_fits(tasks, state)
    via advance_until_ends
{
    match earliest_end(state.auto_end) {
        Some(next) if next <= end => match advance(tasks, state, next) {
            Some(later) => advance_until(tasks, later, end),
            None => None,
        },
        _ => Some(StateModel { time: end, ..state }),
    }
}

/// The state once the manual phase of task `index` is done.
pub open spec fn do_manual(tasks: Seq<TaskModel>, state: StateModel, index: int) -> Option<
    StateModel,
> {
    if state.time + current_duration(tasks, state, index) > u64::MAX {
        None
    } else {
        let entry = entry_now(tasks, state, index, PhaseKind::Manual);
        match advance_until(
            tasks,
            StateModel { entries: state.entries.push(entry), ..state },
            entry.end_minutes,
        ) {
            Some(later) => start_autos(tasks, end_manual(tasks, later, index), 0),
            None => None,
        }
    }
}

/// The state once task `index` has come to the end of its manual phase.
pub open spec fn end_manual(tasks: Seq<TaskModel>, state: StateModel, index: int) -> StateModel {
    mark_completed(
        tasks,
        StateModel {
            phase: state.phase.update(index, (state.phase[index] + 1) as usize),
            ..state
        },
        index,
    )
}

/// Whether every task is completed.
pub open spec fn all_completed(state: StateModel) -> bool {
    forall|i: int| 0 <= i < state.completion.len() ==> #[trigger] state.completion[i] is Some
}

/// Three times as much for each step of priority.
pub open spec fn weight(priority: int) -> int
    decreases priority,
{
    if priority <= 1 {
        1
    } else {
        3 * weight(priority - 1)
    }
}

/// The sum of the completion times of the first `count` tasks, each times its task's weight.
pub open spec fn weighted_sum(tasks: Seq<TaskModel>, completion: Seq<u64>, count: int) -> int
    decreases count,
{
    if count <= 0 {
        0
    } else {
        weighted_sum(tasks, completion, count - 1) + weight(tasks[count - 1].priority as int)
            * completion[count - 1]
    }
}

/// The latest of the completion times.
pub open spec fn latest(completion: Seq<u64>) -> u64
    decreases completion.len(),
{
    if completion.len() == 0 {
        0
    } else {
        let before = latest(completion.drop_last());
        if completion.last() > before {
            completion.last()
        } else {
            before
        }
    }
}

/// The schedule that a state in which every task is completed stands for.
pub open spec fn schedule_of(tasks: Seq<TaskModel>, state: StateModel) -> ScheduleModel {
    let completion = Seq::new(state.completion.len(), |i: int| state.completion[i]->0);
    ScheduleModel {
        entries: state.entries,
        completion,
        weighted: weighted_sum(tasks, completion, tasks.len() as int),
        makespan: latest(completion),
    }
}

/// The ids of the tasks of the manual entries, in order.
pub open spec fn manual_ids(entries: Seq<ScheduleEntry>, tasks: Seq<TaskModel>) -> Seq<Seq<char>>
    decreases entries.len(),
{
    if entries.len() == 0 {
        Seq::empty()
    } else {
        let before = manual_ids(entries.drop_last(), tasks);
        if entries.last().kind == PhaseKind::Manual {
            before.push(tasks[entries.last().task_index as int].id)
        } else {
            before
        }
    }
}

/// Whether `left` is strictly better: the smaller weighted sum decides, then the smaller
/// makespan, then the order of the ids of the manual phases.
pub open spec fn better(
    left: ScheduleModel,
    right: ScheduleModel,
    tasks: Seq<TaskModel>,
) -> bool {
    ||| left.weighted < right.weighted
    ||| left.weighted == right.weighted && left.makespan < right.makespan
    ||| left.weighted == right.weighted && left.makespan == right.makespan && texts_before(
        manual_ids(left.entries, tasks),
        manual_ids(right.entries, tasks),
    )
}

/// The first of the best among `best` and then `found`.
pub open spec fn best_of(
    best: Option<ScheduleModel>,
    found: Seq<ScheduleModel>,
    tasks: Seq<TaskModel>,
) -> Option<ScheduleModel>
    decreases found.len(),
{
    if found.len() == 0 {
        best
    } else {
        match best_of(best, found.drop_last(), tasks) {
            None => Some(found.last()),
            Some(before) => Some(
                if better(found.last(), before, tasks) {
                    found.last()
                } else {
                    before
                },
            ),
        }
    }
}

/// What a search comes to: the states visited in all, the schedules found, in the order in
/// which they are found, and what stopped it, if anything did.
#[verifier::ext_equal]
pub struct Explored {
    pub visited: nat,
    pub found: Seq<ScheduleModel>,
    pub failure: Option<ScheduleFailure>,
}

/// Whether a manual phase of some task can begin now.
pub open spec fn some_manual_ready(tasks: Seq<TaskModel>, state: StateModel) -> bool {
    exists|i: int| 0 <= i < tasks.len() && #[trigger] ready(tasks, state, i, PhaseKind::Manual)
}

/// The search from `state` after `visited` states: first every manual phase that can begin, in
/// the order of the tasks, then the wait for the next automatic phase to end.
pub open spec fn explore(tasks: Seq<TaskModel>, state: StateModel, visited: nat) -> Explored
    decreases work_left(tasks, state), tasks.len() + 1,
    when state_fits(tasks, state)
    via explore_ends
{
    if visited + 1 > MAX_SEARCH_NODES {
        Explored {
            visited: visited + 1,
            found: Seq::empty(),
            failure: Some(ScheduleFailure::TooManyStates),
        }
    } else if all_completed(state) {
        Explored {
            visited: visited + 1,
            found: seq![schedule_of(tasks, state)],
            failure: None,
        }
    } else {
        let done = explore_manuals(tasks, state, 0, visited + 1);
        if done.failure is Some {
            done
        } else {
            match earliest_end(state.auto_end) {
                Some(next) => match advance(tasks, state, next) {
                    Some(later) => {
                        let rest = explore(tasks, later, done.visited);
                        Explored { found: done.found + rest.found, ..rest }
                    },
                    None => Explored { failure: Some(ScheduleFailure::TimeOverflow), ..done },
                },
                None => if some_manual_ready(tasks, state) {
                    done
                } else {
                    Explored { failure: Some(ScheduleFailure::Cycle), ..done }
                },
            }
        }
    }
}

/// The part of the search from `state` that begins with a manual phase of a task from `from` on.
pub open spec fn explore_manuals(
    tasks: Seq<TaskModel>,
    state: StateModel,
    from: int,
    visited: nat,
) -> Explored
    decreases work_left(tasks, state), tasks.len() - from,
    when state_fits(tasks, state) && 0 <= from
    via explore_manuals_ends
{
    if from >= tasks.len() {
        Explored { visited, found: Seq::empty(), failure: None }
    } else if !ready(tasks, state, from, PhaseKind::Manual) {
        explore_manuals(tasks, state, from + 1, visited)
    } else {
        match do_manual(tasks, state, from) {
            None => Explored {
                visited,
                found: Seq::empty(),
                failure: Some(ScheduleFailure::TimeOverflow),
            },
            Some(later) => {
                let done = explore(tasks, later, visited);
                if done.failure is Some {
                    done
                } else {
                    let rest = explore_manuals(tasks, state, from + 1, done.visited);
                    Explored { found: done.found + rest.found, ..rest }
                }
            },
        }
    }
}

#[via_fn]
proof fn advance_until_ends(tasks: Seq<TaskModel>, state: StateModel, end: u64) {
    if let Some(next) = earliest_end(state.auto_end) {
        if next <= end {
            advance_keeps(tasks, state, next);
        }
    }
}

#[via_fn]
proof fn explore_ends(tasks: Seq<TaskModel>, state: StateModel, visited: nat) {
    phases_left_bounds(tasks, state.phase, tasks.len() as int);
    if let Some(next) = earliest_end(state.auto_end) {
        advance_keeps(tasks, state, next);
    }
}

#[via_fn]
proof fn explore_manuals_ends(
    tasks: Seq<TaskModel>,
    state: StateModel,
    from: int,
    visited: nat,
) {
    if from < tasks.len() && ready(tasks, state, from, PhaseKind::Manual) {
        do_manual_keeps(tasks, state, from);
    }
}

/// What is left is never negative.
pub proof fn phases_left_bounds(tasks: Seq<TaskModel>, phase: Seq<usize>, count: int)
    requires
        phase.len() == tasks.len(),
        count <= tasks.len(),
        forall|i: int| 0 <= i < tasks.len() ==> #[trigger] phase[i] <= tasks[i].phases.len(),
    ensures
        phases_left(tasks, phase, count) >= 0,
    decreases count,
{
    if count > 0 {
        phases_left_bounds(tasks, phase, count - 1);
        assert(phase[count - 1] <= tasks[count - 1].phases.len());
    }
}

/// A phase that ends leaves one phase less.
pub proof fn phases_left_step(tasks: Seq<TaskModel>, phase: Seq<usize>, index: int, count: int)
    requires
        phase.len() == tasks.len(),
        0 <= index < tasks.len(),
        count <= tasks.len(),
        phase[index] < usize::MAX,
    ensures
        phases_left(tasks, phase.update(index, (phase[index] + 1) as usize), count)
            == phases_left(tasks, phase, count) - (if index < count {
            1int
        } else {
            0int
        }),
    decreases count,
{
    if count > 0 {
        phases_left_step(tasks, phase, index, count - 1);
    }
}

/// Beginning automatic phases keeps the state fitting and what is left.
pub proof fn start_autos_keeps(tasks: Seq<TaskModel>, state: StateModel, from: int)
    requires
        state_fits(tasks, state),
        0 <= from,
    ensures
        start_autos(tasks, state, from) matches Some(later) ==> {
            &&& state_fits(tasks, later)
            &&& later.phase == state.phase
            &&& later.completion == state.completion
            &&& later.time == state.time
            &&& forall|i: int|
                0 <= i < tasks.len() && state.auto_end[i] is Some ==> #[trigger] later.auto_end[i]
                    == state.auto_end[i]
        },
    decreases tasks.len() - from,
{
    if from < tasks.len() {
        if !ready(tasks, state, from, PhaseKind::Auto) {
            start_autos_keeps(tasks, state, from + 1);
        } else if state.time + current_duration(tasks, state, from) <= u64::MAX {
            let next = begin_auto(tasks, state, from);
            assert(state_fits(tasks, next));
            start_autos_keeps(tasks, next, from + 1);
        }
    }
}

/// Ending automatic phases keeps the state fitting and never adds to what is left.
#[verifier::spinoff_prover]
pub proof fn end_autos_keeps(tasks: Seq<TaskModel>, state: StateModel, from: int)
    requires
        state_fits(tasks, state),
        0 <= from,
    ensures
        state_fits(tasks, end_autos(tasks, state, from)),
        end_autos(tasks, state, from).time == state.time,
        end_autos(tasks, state, from).entries == state.entries,
        work_left(tasks, end_autos(tasks, state, from)) <= work_left(tasks, state),
        (exists|i: int| from <= i < tasks.len() && state.auto_end[i] == Some(state.time))
            ==> work_left(tasks, end_autos(tasks, state, from)) < work_left(tasks, state),
        forall|i: int|
            0 <= i < tasks.len() && (i < from || state.auto_end[i] != Some(state.time)) ==> {
                &&& (#[trigger] end_autos(tasks, state, from).phase[i]) == state.phase[i]
                &&& end_autos(tasks, state, from).auto_end[i] == state.auto_end[i]
                &&& end_autos(tasks, state, from).completion[i] == state.completion[i]
            },
    decreases tasks.len() - from,
{
    if from < tasks.len() {
        if state.auto_end[from] == Some(state.time) {
            let next = end_phase(tasks, state, from);
            assert(state_fits(tasks, next));
            phases_left_step(tasks, state.phase, from, tasks.len() as int);
            end_autos_keeps(tasks, next, from + 1);
            let done = end_autos(tasks, next, from + 1);
            assert(end_autos(tasks, state, from) == done);
            assert forall|i: int|
                0 <= i < tasks.len() && (i < from || state.auto_end[i] != Some(
                    state.time,
                )) implies {
                &&& (#[trigger] end_autos(tasks, state, from).phase[i]) == state.phase[i]
                &&& end_autos(tasks, state, from).auto_end[i] == state.auto_end[i]
                &&& end_autos(tasks, state, from).completion[i] == state.completion[i]
            } by {
                assert(i != from);
                assert(next.auto_end[i] == state.auto_end[i]);
                assert(next.time == state.time);
                assert(next.phase[i] == state.phase[i]);
                assert(next.completion[i] == state.completion[i]);
                assert(done.phase[i] == next.phase[i]);
            }
        } else {
            end_autos_keeps(tasks, state, from + 1);
        }
    }
}

/// The earliest end is the end of some phase, and none ends before it.
pub proof fn earliest_end_is_least(auto_end: Seq<Option<u64>>)
    ensures
        match earliest_end(auto_end) {
            Some(end) => {
                &&& exists|i: int| 0 <= i < auto_end.len() && auto_end[i] == Some(end)
                &&& forall|i: int|
                    0 <= i < auto_end.len() && #[trigger] auto_end[i] is Some ==> end
                        <= auto_end[i]->0
            },
            None => forall|i: int| 0 <= i < auto_end.len() ==> #[trigger] auto_end[i] is None,
        },
    decreases auto_end.len(),
{
    if auto_end.len() > 0 {
        let rest = auto_end.drop_last();
        let last = auto_end.len() - 1;
        earliest_end_is_least(rest);
        assert forall|i: int| 0 <= i < auto_end.len() && #[trigger] auto_end[i] is Some implies (
        earliest_end(auto_end) is Some && earliest_end(auto_end)->0 <= auto_end[i]->0) by {
            if i < last {
                assert(rest[i] == auto_end[i]);
            }
        }
        if let Some(end) = earliest_end(auto_end) {
            if auto_end[last] == Some(end) {
            } else {
                assert(earliest_end(rest) == Some(end));
                let k = choose|i: int| 0 <= i < rest.len() && rest[i] == Some(end);
                assert(auto_end[k] == Some(end));
            }
        }
    }
}

/// Coming to the next end of an automatic phase leaves less to do.
pub proof fn advance_keeps(tasks: Seq<TaskModel>, state: StateModel, next: u64)
    requires
        state_fits(tasks, state),
        earliest_end(state.auto_end) == Some(next),
    ensures
        advance(tasks, state, next) matches Some(later) ==> {
            &&& state_fits(tasks, later)
            &&& 0 <= work_left(tasks, later) < work_left(tasks, state)
        },
{
    let there = StateModel { time: next, ..state };
    assert(state_fits(tasks, there));
    earliest_end_is_least(state.auto_end);
    end_autos_keeps(tasks, there, 0);
    let ended = end_autos(tasks, there, 0);
    start_autos_keeps(tasks, ended, 0);
    phases_left_bounds(tasks, ended.phase, tasks.len() as int);
}

/// Waiting until a time keeps the state fitting and adds nothing to do; a task that is in no
/// automatic phase and that has come to a manual one stays there.
pub proof fn advance_until_keeps(tasks: Seq<TaskModel>, state: StateModel, end: u64, index: int)
    requires
        state_fits(tasks, state),
        0 <= index < tasks.len(),
        state.phase[index] < tasks[index].phases.len(),
        tasks[index].phases[state.phase[index] as int].kind == PhaseKind::Manual,
        state.auto_end[index] is None,
    ensures
        advance_until(tasks, state, end) matches Some(later) ==> {
            &&& state_fits(tasks, later)
            &&& work_left(tasks, later) <= work_left(tasks, state)
            &&& later.time == end
            &&& later.phase[index] == state.phase[index]
            &&& later.auto_end[index] is None
        },
    decreases work_left(tasks, state),
{
    if let Some(next) = earliest_end(state.auto_end) {
        if next <= end {
            advance_keeps(tasks, state, next);
            if let Some(later) = advance(tasks, state, next) {
                let there = StateModel { time: next, ..state };
                end_autos_keeps(tasks, there, 0);
                let ended = end_autos(tasks, there, 0);
                assert(ended.phase[index] == state.phase[index]);
                start_autos_keeps(tasks, ended, 0);
                start_autos_leaves(tasks, ended, 0, index);
                advance_until_keeps(tasks, later, end, index);
            }
        }
    }
}

/// A task that has come to a manual phase is in no automatic one once others have begun.
pub proof fn start_autos_leaves(
    tasks: Seq<TaskModel>,
    state: StateModel,
    from: int,
    index: int,
)
    requires
        state_fits(tasks, state),
        0 <= from,
        0 <= index < tasks.len(),
        !ready(tasks, state, index, PhaseKind::Auto),
    ensures
        start_autos(tasks, state, from) matches Some(later) ==> later.auto_end[index]
            == state.auto_end[index],
    decreases tasks.len() - from,
{
    if from < tasks.len() {
        if !ready(tasks, state, from, PhaseKind::Auto) {
            start_autos_leaves(tasks, state, from + 1, index);
        } else if state.time + current_duration(tasks, state, from) <= u64::MAX {
            let next = begin_auto(tasks, state, from);
            assert(state_fits(tasks, next));
            start_autos_leaves(tasks, next, from + 1, index);
        }
    }
}

/// Doing a manual phase leaves less to do.
pub proof fn do_manual_keeps(tasks: Seq<TaskModel>, state: StateModel, index: int)
    requires
        state_fits(tasks, state),
        0 <= index < tasks.len(),
        ready(tasks, state, index, PhaseKind::Manual),
    ensures
        do_manual(tasks, state, index) matches Some(later) ==> {
            &&& state_fits(tasks, later)
            &&& 0 <= work_left(tasks, later) < work_left(tasks, state)
        },
{
    if state.time + current_duration(tasks, state, index) <= u64::MAX {
        let entry = entry_now(tasks, state, index, PhaseKind::Manual);
        let begun = StateModel { entries: state.entries.push(entry), ..state };
        advance_until_keeps(tasks, begun, entry.end_minutes, index);
        if let Some(later) = advance_until(tasks, begun, entry.end_minutes) {
            phases_left_step(tasks, later.phase, index, tasks.len() as int);
            let ended = end_manual(tasks, later, index);
            assert(state_fits(tasks, ended));
            phases_left_bounds(tasks, ended.phase, tasks.len() as int);
            start_autos_keeps(tasks, ended, 0);
        }
    }
}

} // verus!
