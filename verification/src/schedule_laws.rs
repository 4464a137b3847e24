//! What holds of every schedule that the search finds, and of the one that it returns.
use vstd::prelude::*;

use crate::schedule_model::PhaseKind;

verus! {

use crate::schedule_model::{
    advance, advance_keeps, advance_until, all_completed, begin_auto, best_of, better, can_start,
    current_duration, dependencies_in_range, do_manual, do_manual_keeps,
    earliest_end, earliest_end_is_least, end_autos, end_manual, end_phase,
    entries_in_range, entry_now, explore, explore_manuals, initial_state, manual_ids,
    phases_left_bounds, ready, schedule_of, start_autos, state_fits, work_left, ScheduleEntry,
    some_manual_ready, ScheduleFailure, ScheduleModel, StateModel, TaskModel, MAX_SEARCH_NODES,
};
use crate::ordering::{texts_before, texts_before_total, texts_before_transitive};

/// Whether the entry at `position` is that of the given phase of the given task.
pub open spec fn is_entry(
    entries: Seq<ScheduleEntry>,
    position: int,
    task: int,
    phase: int,
) -> bool {
    &&& 0 <= position < entries.len()
    &&& entries[position].task_index == task
    &&& entries[position].phase_index == phase
}

/// Whether the given phase of the given task has an entry.
pub open spec fn has_entry(entries: Seq<ScheduleEntry>, task: int, phase: int) -> bool {
    exists|p: int| #[trigger] is_entry(entries, p, task, phase)
}

/// Every entry is of a phase of a task, of its kind and as long as it.
pub open spec fn entries_match_phases(
    tasks: Seq<TaskModel>,
    entries: Seq<ScheduleEntry>,
) -> bool {
    forall|p: int|
        0 <= p < entries.len() ==> {
            let entry = #[trigger] entries[p];
            let phases = tasks[entry.task_index as int].phases;
            &&& entry.task_index < tasks.len()
            &&& entry.phase_index < phases.len()
            &&& entry.kind == phases[entry.phase_index as int].kind
            &&& entry.end_minutes == entry.start_minutes
                + phases[entry.phase_index as int].duration_minutes
        }
}

/// No phase has two entries.
pub open spec fn entries_are_distinct(entries: Seq<ScheduleEntry>) -> bool {
    forall|p: int, q: int|
        0 <= p < entries.len() && 0 <= q < entries.len() && p != q ==> !(
        #[trigger] entries[p].task_index == #[trigger] entries[q].task_index
            && entries[p].phase_index == entries[q].phase_index)
}

/// A phase begins when the one before it has ended, and an automatic one at that moment.
pub open spec fn phases_follow(entries: Seq<ScheduleEntry>) -> bool {
    forall|p: int, q: int|
        0 <= p < entries.len() && 0 <= q < entries.len() && #[trigger] entries[p].task_index
            == #[trigger] entries[q].task_index && entries[q].phase_index
            == entries[p].phase_index + 1 ==> {
            &&& entries[p].end_minutes <= entries[q].start_minutes
            &&& entries[q].kind == PhaseKind::Auto ==> entries[p].end_minutes
                == entries[q].start_minutes
        }
}

/// Manual phases are done one after another, in the order of the entries.
pub open spec fn manual_phases_apart(entries: Seq<ScheduleEntry>) -> bool {
    forall|p: int, q: int|
        0 <= p < q < entries.len() && entries[p].kind == PhaseKind::Manual && entries[q].kind
            == PhaseKind::Manual ==> #[trigger] entries[p].end_minutes
            <= #[trigger] entries[q].start_minutes
}

/// The schedule carries out the tasks: each phase of each task once and for as long as it takes,
/// the phases of a task in order, an automatic phase as soon as the phase before it has ended,
/// no two manual phases at a time, and no task before those it depends on are completed.
pub open spec fn is_valid(tasks: Seq<TaskModel>, schedule: ScheduleModel) -> bool {
    &&& schedule.completion.len() == tasks.len()
    &&& entries_match_phases(tasks, schedule.entries)
    &&& entries_are_distinct(schedule.entries)
    &&& phases_follow(schedule.entries)
    &&& manual_phases_apart(schedule.entries)
    &&& forall|task: int, phase: int|
        0 <= task < tasks.len() && 0 <= phase < tasks[task].phases.len() ==> #[trigger] has_entry(
            schedule.entries,
            task,
            phase,
        )
    &&& forall|p: int, j: int|
        0 <= p < schedule.entries.len() && schedule.entries[p].phase_index == 0 && 0 <= j
            < tasks[schedule.entries[p].task_index as int].dependencies.len()
            ==> schedule.completion[#[trigger] tasks[schedule.entries[p].task_index as int].dependencies[j] as int]
            <= schedule.entries[p].start_minutes
    &&& forall|p: int|
        0 <= p < schedule.entries.len() && schedule.entries[p].phase_index + 1
            == tasks[schedule.entries[p].task_index as int].phases.len()
            ==> schedule.completion[schedule.entries[p].task_index as int]
            == #[trigger] schedule.entries[p].end_minutes
}

/// A manual phase that is being done: the task, and when it will end.
pub open spec fn is_doing(doing: Option<(int, u64)>, task: int) -> bool {
    doing matches Some((in_hand, _)) && in_hand == task
}

/// How many phases of the task have begun.
pub open spec fn phases_begun(
    state: StateModel,
    doing: Option<(int, u64)>,
    task: int,
) -> int {
    state.phase[task] + (if state.auto_end[task] is Some || is_doing(doing, task) {
        1int
    } else {
        0int
    })
}

/// When the phase that the task is in will end.
pub open spec fn end_in_hand(state: StateModel, doing: Option<(int, u64)>, task: int) -> u64 {
    match (state.auto_end[task], doing) {
        (Some(end), _) => end,
        (None, Some((_, end))) => end,
        (None, None) => state.time,
    }
}

/// Every phase that has begun has an entry.
pub open spec fn begun_have_entries(
    tasks: Seq<TaskModel>,
    state: StateModel,
    doing: Option<(int, u64)>,
) -> bool {
    forall|task: int, phase: int|
        0 <= task < tasks.len() && 0 <= phase < phases_begun(state, doing, task)
            ==> #[trigger] has_entry(state.entries, task, phase)
}

/// An entry is of a phase that has begun; it has ended unless the task is in that phase.
pub open spec fn entries_have_begun(
    tasks: Seq<TaskModel>,
    state: StateModel,
    doing: Option<(int, u64)>,
) -> bool {
    forall|p: int|
        0 <= p < state.entries.len() ==> {
            let entry = #[trigger] state.entries[p];
            let task = entry.task_index as int;
            &&& entry.phase_index < phases_begun(state, doing, task)
            &&& if entry.phase_index < state.phase[task] {
                entry.end_minutes <= state.time
            } else {
                entry.end_minutes == end_in_hand(state, doing, task)
            }
        }
}

/// A task begins when all that it depends on is completed.
pub open spec fn dependencies_met(tasks: Seq<TaskModel>, state: StateModel) -> bool {
    forall|p: int, j: int|
        0 <= p < state.entries.len() && state.entries[p].phase_index == 0 && 0 <= j
            < tasks[state.entries[p].task_index as int].dependencies.len() ==> {
            let needed = #[trigger] tasks[state.entries[p].task_index as int].dependencies[j];
            &&& state.completion[needed as int] is Some
            &&& state.completion[needed as int]->0 <= state.entries[p].start_minutes
        }
}

/// A task is completed when its last phase has ended.
pub open spec fn completions_right(tasks: Seq<TaskModel>, state: StateModel) -> bool {
    &&& forall|task: int|
        0 <= task < tasks.len() && #[trigger] state.completion[task] is Some ==> {
            &&& state.phase[task] == tasks[task].phases.len()
            &&& tasks[task].phases.len() > 0
        }
    &&& forall|task: int|
        0 <= task < tasks.len() && #[trigger] state.phase[task] == tasks[task].phases.len()
            && tasks[task].phases.len() > 0 ==> state.completion[task] is Some
    &&& forall|p: int|
        0 <= p < state.entries.len() && state.completion[state.entries[p].task_index as int] is Some
            && state.entries[p].phase_index + 1
            == tasks[state.entries[p].task_index as int].phases.len()
            ==> state.completion[state.entries[p].task_index as int]->0
            == #[trigger] state.entries[p].end_minutes
}

/// What holds while the tasks are carried out.
pub open spec fn under_way(
    tasks: Seq<TaskModel>,
    state: StateModel,
    doing: Option<(int, u64)>,
) -> bool {
    &&& state_fits(tasks, state)
    &&& dependencies_in_range(tasks)
    &&& entries_match_phases(tasks, state.entries)
    &&& entries_are_distinct(state.entries)
    &&& phases_follow(state.entries)
    &&& manual_phases_apart(state.entries)
    &&& begun_have_entries(tasks, state, doing)
    &&& entries_have_begun(tasks, state, doing)
    &&& dependencies_met(tasks, state)
    &&& completions_right(tasks, state)
    &&& forall|task: int|
        0 <= task < tasks.len() && #[trigger] state.auto_end[task] is Some ==> {
            &&& tasks[task].phases[state.phase[task] as int].kind == PhaseKind::Auto
            &&& state.time <= state.auto_end[task]->0
        }
    &&& doing matches Some((task, end)) ==> {
        &&& 0 <= task < tasks.len()
        &&& state.phase[task] < tasks[task].phases.len()
        &&& tasks[task].phases[state.phase[task] as int].kind == PhaseKind::Manual
        &&& state.auto_end[task] is None
        &&& state.time <= end
    }
}

/// Whether the task has come to an automatic phase, after another phase, that has not begun.
pub open spec fn auto_is_due(tasks: Seq<TaskModel>, state: StateModel, task: int) -> bool {
    &&& 0 < state.phase[task] < tasks[task].phases.len()
    &&& tasks[task].phases[state.phase[task] as int].kind == PhaseKind::Auto
    &&& state.auto_end[task] is None
}

/// Where an automatic phase is due, the phase before it ends now.
pub open spec fn due_now(tasks: Seq<TaskModel>, state: StateModel) -> bool {
    forall|p: int|
        0 <= p < state.entries.len() && auto_is_due(
            tasks,
            state,
            state.entries[p].task_index as int,
        ) && state.entries[p].phase_index + 1 == state.phase[state.entries[p].task_index as int]
            ==> #[trigger] state.entries[p].end_minutes == state.time
}

/// No automatic phase can begin.
pub open spec fn is_settled(tasks: Seq<TaskModel>, state: StateModel) -> bool {
    forall|task: int|
        0 <= task < tasks.len() ==> !#[trigger] ready(tasks, state, task, PhaseKind::Auto)
}

/// A phase that begins now keeps what holds of the entries.
proof fn entry_begins(
    tasks: Seq<TaskModel>,
    state: StateModel,
    task: int,
    kind: PhaseKind,
    doing: Option<(int, u64)>,
)
    requires
        under_way(tasks, state, doing),
        due_now(tasks, state),
        0 <= task < tasks.len(),
        ready(tasks, state, task, kind),
        state.time + current_duration(tasks, state, task) <= u64::MAX,
        kind == PhaseKind::Manual ==> doing is None,
    ensures
        ({
            let entry = entry_now(tasks, state, task, kind);
            let entries = state.entries.push(entry);
            &&& entries_match_phases(tasks, entries)
            &&& entries_are_distinct(entries)
            &&& phases_follow(entries)
            &&& manual_phases_apart(entries)
            &&& dependencies_met(tasks, StateModel { entries, ..state })
        }),
{
    let entry = entry_now(tasks, state, task, kind);
    let entries = state.entries.push(entry);
    let last = state.entries.len() as int;
    assert(!is_doing(doing, task));
    assert(phases_begun(state, doing, task) == state.phase[task]);
    assert(entries_are_distinct(entries)) by {
        assert forall|p: int, q: int|
            0 <= p < entries.len() && 0 <= q < entries.len() && p != q implies !(
        #[trigger] entries[p].task_index == #[trigger] entries[q].task_index
            && entries[p].phase_index == entries[q].phase_index) by {
            if p < last && q < last {
                assert(entries[p] == state.entries[p] && entries[q] == state.entries[q]);
            } else {
                let r = if p == last {
                    q
                } else {
                    p
                };
                assert(entries[r] == state.entries[r]);
            }
        }
    }
    assert(phases_follow(entries)) by {
        assert forall|p: int, q: int|
            0 <= p < entries.len() && 0 <= q < entries.len() && #[trigger] entries[p].task_index
                == #[trigger] entries[q].task_index && entries[q].phase_index
                == entries[p].phase_index + 1 implies {
            &&& entries[p].end_minutes <= entries[q].start_minutes
            &&& entries[q].kind == PhaseKind::Auto ==> entries[p].end_minutes
                == entries[q].start_minutes
        } by {
            if p < last && q < last {
                assert(entries[p] == state.entries[p] && entries[q] == state.entries[q]);
            } else if q == last && p < last {
                assert(entries[p] == state.entries[p]);
                if kind == PhaseKind::Auto {
                    assert(auto_is_due(tasks, state, task));
                    assert(state.entries[p].end_minutes == state.time);
                }
            } else if p == last && q < last {
                assert(entries[q] == state.entries[q]);
            }
        }
    }
    assert(manual_phases_apart(entries)) by {
        assert forall|p: int, q: int|
            0 <= p < q < entries.len() && entries[p].kind == PhaseKind::Manual && entries[q].kind
                == PhaseKind::Manual implies #[trigger] entries[p].end_minutes
            <= #[trigger] entries[q].start_minutes by {
            assert(entries[p] == state.entries[p]);
            if q < last {
                assert(entries[q] == state.entries[q]);
            } else {
                let t = state.entries[p].task_index as int;
                assert(state.entries[p].phase_index < phases_begun(state, doing, t));
                if state.auto_end[t] is Some && state.entries[p].phase_index == state.phase[t] {
                    assert(false);
                }
            }
        }
    }
    let later = StateModel { entries, ..state };
    assert(dependencies_met(tasks, later)) by {
        assert forall|p: int, j: int|
            0 <= p < later.entries.len() && later.entries[p].phase_index == 0 && 0 <= j
                < tasks[later.entries[p].task_index as int].dependencies.len() implies ({
            let needed = #[trigger] tasks[later.entries[p].task_index as int].dependencies[j];
            &&& later.completion[needed as int] is Some
            &&& later.completion[needed as int]->0 <= later.entries[p].start_minutes
        }) by {
            if p < last {
                assert(later.entries[p] == state.entries[p]);
            } else {
                let needed = tasks[task].dependencies[j] as int;
                assert(can_start(tasks, state, task));
                assert(state.completion[needed] is Some);
                completed_by_now(tasks, state, doing, needed);
            }
        }
    }
    assert(entries_match_phases(tasks, entries)) by {
        assert forall|p: int| 0 <= p < entries.len() implies ({
            let entry = #[trigger] entries[p];
            let phases = tasks[entry.task_index as int].phases;
            &&& entry.task_index < tasks.len()
            &&& entry.phase_index < phases.len()
            &&& entry.kind == phases[entry.phase_index as int].kind
            &&& entry.end_minutes == entry.start_minutes
                + phases[entry.phase_index as int].duration_minutes
        }) by {
            if p < last {
                assert(entries[p] == state.entries[p]);
            }
        }
    }
}

/// A completed task was completed by now.
proof fn completed_by_now(
    tasks: Seq<TaskModel>,
    state: StateModel,
    doing: Option<(int, u64)>,
    task: int,
)
    requires
        under_way(tasks, state, doing),
        0 <= task < tasks.len(),
        state.completion[task] is Some,
    ensures
        state.completion[task]->0 <= state.time,
{
    let last = tasks[task].phases.len() - 1;
    assert(has_entry(state.entries, task, last));
    let p = choose|p: int| #[trigger] is_entry(state.entries, p, task, last);
    assert(is_entry(state.entries, p, task, last));
    assert(state.entries[p].end_minutes == state.completion[task]->0);
}

/// What has begun has its entry once the entry of the next phase of the task is added.
proof fn begun_after_entry(
    tasks: Seq<TaskModel>,
    state: StateModel,
    doing: Option<(int, u64)>,
    later: StateModel,
    later_doing: Option<(int, u64)>,
    task: int,
)
    requires
        begun_have_entries(tasks, state, doing),
        0 <= task < tasks.len(),
        later.entries.len() == state.entries.len() + 1,
        later.entries.drop_last() == state.entries,
        later.entries.last().task_index == task,
        later.entries.last().phase_index == phases_begun(state, doing, task),
        phases_begun(later, later_doing, task) == phases_begun(state, doing, task) + 1,
        forall|other: int|
            0 <= other < tasks.len() && other != task ==> #[trigger] phases_begun(
                later,
                later_doing,
                other,
            ) == phases_begun(state, doing, other),
    ensures
        begun_have_entries(tasks, later, later_doing),
{
    assert forall|other: int, phase: int|
        0 <= other < tasks.len() && 0 <= phase < phases_begun(later, later_doing, other) implies #[trigger] has_entry(
                later.entries,
                other,
                phase,
            ) by {
        if other == task && phase == phases_begun(state, doing, task) {
            assert(is_entry(later.entries, later.entries.len() - 1, other, phase));
        } else {
            assert(has_entry(state.entries, other, phase));
            let p = choose|p: int| #[trigger] is_entry(state.entries, p, other, phase);
            assert(is_entry(state.entries, p, other, phase));
            assert(state.entries[p] == later.entries.drop_last()[p]);
            assert(is_entry(later.entries, p, other, phase));
        }
    }
}

proof fn begin_auto_under_way(
    tasks: Seq<TaskModel>,
    state: StateModel,
    task: int,
    doing: Option<(int, u64)>,
)
    requires
        under_way(tasks, state, doing),
        due_now(tasks, state),
        0 <= task < tasks.len(),
        ready(tasks, state, task, PhaseKind::Auto),
        state.time + current_duration(tasks, state, task) <= u64::MAX,
    ensures
        under_way(tasks, begin_auto(tasks, state, task), doing),
        due_now(tasks, begin_auto(tasks, state, task)),
{
    let later = begin_auto(tasks, state, task);
    let last = state.entries.len() as int;
    entry_begins(tasks, state, task, PhaseKind::Auto, doing);
    assert(later.entries.drop_last() == state.entries);
    assert(!is_doing(doing, task));
    begun_after_entry(tasks, state, doing, later, doing, task);
    assert(state_fits(tasks, later));
    assert(entries_have_begun(tasks, later, doing)) by {
        assert forall|p: int| 0 <= p < later.entries.len() implies ({
            let entry = #[trigger] later.entries[p];
            let t = entry.task_index as int;
            &&& entry.phase_index < phases_begun(later, doing, t)
            &&& if entry.phase_index < later.phase[t] {
                entry.end_minutes <= later.time
            } else {
                entry.end_minutes == end_in_hand(later, doing, t)
            }
        }) by {
            if p < last {
                assert(later.entries[p] == state.entries[p]);
                let t = state.entries[p].task_index as int;
                assert(state.entries[p].phase_index < phases_begun(state, doing, t));
            }
        }
    }
    assert(dependencies_met(tasks, later)) by {
        let same = StateModel { entries: later.entries, ..state };
        assert(dependencies_met(tasks, same));
        assert forall|p: int, j: int|
            0 <= p < later.entries.len() && later.entries[p].phase_index == 0 && 0 <= j
                < tasks[later.entries[p].task_index as int].dependencies.len() implies ({
            let needed = #[trigger] tasks[later.entries[p].task_index as int].dependencies[j];
            &&& later.completion[needed as int] is Some
            &&& later.completion[needed as int]->0 <= later.entries[p].start_minutes
        }) by {
            assert(same.entries[p] == later.entries[p]);
        }
    }
    assert(completions_right(tasks, later)) by {
        assert forall|p: int|
            0 <= p < later.entries.len()
                && later.completion[later.entries[p].task_index as int] is Some
                && later.entries[p].phase_index + 1
                == tasks[later.entries[p].task_index as int].phases.len() implies later.completion[later.entries[p].task_index as int]->0
            == #[trigger] later.entries[p].end_minutes by {
            if p < last {
                assert(later.entries[p] == state.entries[p]);
            } else {
                assert(state.completion[task] is Some);
            }
        }
    }
    assert(due_now(tasks, later)) by {
        assert forall|p: int|
            0 <= p < later.entries.len() && auto_is_due(
                tasks,
                later,
                later.entries[p].task_index as int,
            ) && later.entries[p].phase_index + 1
                == later.phase[later.entries[p].task_index as int] implies #[trigger] later.entries[p].end_minutes
            == later.time by {
            if p < last {
                assert(later.entries[p] == state.entries[p]);
                assert(auto_is_due(tasks, state, state.entries[p].task_index as int));
            }
        }
    }
}

proof fn start_autos_under_way(
    tasks: Seq<TaskModel>,
    state: StateModel,
    from: int,
    doing: Option<(int, u64)>,
)
    requires
        under_way(tasks, state, doing),
        due_now(tasks, state),
        0 <= from,
        forall|task: int|
            0 <= task < from && task < tasks.len() ==> !#[trigger] ready(
                tasks,
                state,
                task,
                PhaseKind::Auto,
            ),
    ensures
        start_autos(tasks, state, from) matches Some(later) ==> {
            &&& under_way(tasks, later, doing)
            &&& is_settled(tasks, later)
            &&& later.time == state.time
        },
    decreases tasks.len() - from,
{
    if from < tasks.len() {
        if !ready(tasks, state, from, PhaseKind::Auto) {
            start_autos_under_way(tasks, state, from + 1, doing);
        } else if state.time + current_duration(tasks, state, from) <= u64::MAX {
            let later = begin_auto(tasks, state, from);
            begin_auto_under_way(tasks, state, from, doing);
            assert forall|task: int| 0 <= task < from + 1 && task < tasks.len() implies !#[trigger] ready(
                tasks,
                later,
                task,
                PhaseKind::Auto,
            ) by {
                if task < from {
                    assert(!ready(tasks, state, task, PhaseKind::Auto));
                    assert(can_start(tasks, later, task) == can_start(tasks, state, task));
                }
            }
            start_autos_under_way(tasks, later, from + 1, doing);
        }
    }
}

/// The state once a phase of the task has ended now: `ended` is as `end_phase` or `end_manual`
/// make it.
proof fn phase_ends_under_way(
    tasks: Seq<TaskModel>,
    state: StateModel,
    task: int,
    doing: Option<(int, u64)>,
    ended: StateModel,
    ended_doing: Option<(int, u64)>,
)
    requires
        under_way(tasks, state, doing),
        due_now(tasks, state),
        0 <= task < tasks.len(),
        ({
            ||| state.auto_end[task] == Some(state.time) && ended_doing == doing && ended
                == end_phase(tasks, state, task)
            ||| doing == Some((task, state.time)) && ended_doing is None && ended == end_manual(
                tasks,
                state,
                task,
            )
        }),
    ensures
        under_way(tasks, ended, ended_doing),
        due_now(tasks, ended),
{
    assert(state.phase[task] < tasks[task].phases.len() <= usize::MAX);
    assert(state_fits(tasks, ended));
    assert(ended.entries == state.entries);
    assert(ended.phase[task] == state.phase[task] + 1);
    assert(state.completion[task] is None);
    assert forall|other: int| 0 <= other < tasks.len() implies #[trigger] phases_begun(
        ended,
        ended_doing,
        other,
    ) == phases_begun(state, doing, other) by {}
    assert(begun_have_entries(tasks, ended, ended_doing)) by {
        assert forall|other: int, phase: int|
            0 <= other < tasks.len() && 0 <= phase < phases_begun(ended, ended_doing, other) implies #[trigger] has_entry(
                ended.entries,
                other,
                phase,
            ) by {
            assert(phase < phases_begun(state, doing, other));
            assert(has_entry(state.entries, other, phase));
        }
    }
    assert(entries_have_begun(tasks, ended, ended_doing)) by {
        assert forall|p: int| 0 <= p < ended.entries.len() implies ({
            let entry = #[trigger] ended.entries[p];
            let t = entry.task_index as int;
            &&& entry.phase_index < phases_begun(ended, ended_doing, t)
            &&& if entry.phase_index < ended.phase[t] {
                entry.end_minutes <= ended.time
            } else {
                entry.end_minutes == end_in_hand(ended, ended_doing, t)
            }
        }) by {
            let entry = state.entries[p];
            let t = entry.task_index as int;
            assert(entry.phase_index < phases_begun(state, doing, t));
            assert(phases_begun(ended, ended_doing, t) == phases_begun(state, doing, t));
        }
    }
    assert(dependencies_met(tasks, ended)) by {
        assert forall|p: int, j: int|
            0 <= p < ended.entries.len() && ended.entries[p].phase_index == 0 && 0 <= j
                < tasks[ended.entries[p].task_index as int].dependencies.len() implies ({
            let needed = #[trigger] tasks[ended.entries[p].task_index as int].dependencies[j];
            &&& ended.completion[needed as int] is Some
            &&& ended.completion[needed as int]->0 <= ended.entries[p].start_minutes
        }) by {
            let needed = tasks[state.entries[p].task_index as int].dependencies[j];
            assert(state.completion[needed as int] is Some);
        }
    }
    assert(completions_right(tasks, ended)) by {
        assert forall|p: int|
            0 <= p < ended.entries.len()
                && ended.completion[ended.entries[p].task_index as int] is Some
                && ended.entries[p].phase_index + 1
                == tasks[ended.entries[p].task_index as int].phases.len() implies ended.completion[ended.entries[p].task_index as int]->0
            == #[trigger] ended.entries[p].end_minutes by {
            let entry = state.entries[p];
            assert(entry.phase_index < phases_begun(state, doing, entry.task_index as int));
        }
        assert forall|t: int|
            0 <= t < tasks.len() && #[trigger] ended.phase[t] == tasks[t].phases.len()
                && tasks[t].phases.len() > 0 implies ended.completion[t] is Some by {
            if t != task {
                assert(state.phase[t] == ended.phase[t]);
            }
        }
        assert forall|t: int| 0 <= t < tasks.len() && #[trigger] ended.completion[t] is Some implies {
            &&& ended.phase[t] == tasks[t].phases.len()
            &&& tasks[t].phases.len() > 0
        } by {
            if t != task {
                assert(state.completion[t] == ended.completion[t]);
            }
        }
    }
    assert(due_now(tasks, ended)) by {
        assert forall|p: int|
            0 <= p < ended.entries.len() && auto_is_due(
                tasks,
                ended,
                ended.entries[p].task_index as int,
            ) && ended.entries[p].phase_index + 1
                == ended.phase[ended.entries[p].task_index as int] implies #[trigger] ended.entries[p].end_minutes
            == ended.time by {
            let entry = state.entries[p];
            let t = entry.task_index as int;
            if t != task {
                assert(auto_is_due(tasks, state, t));
            } else {
                assert(entry.phase_index == state.phase[t]);
                assert(entry.end_minutes == end_in_hand(state, doing, t));
            }
        }
    }
    assert forall|t: int| 0 <= t < tasks.len() && #[trigger] ended.auto_end[t] is Some implies {
        &&& tasks[t].phases[ended.phase[t] as int].kind == PhaseKind::Auto
        &&& ended.time <= ended.auto_end[t]->0
    } by {
        assert(t != task);
        assert(state.auto_end[t] is Some);
    }
}

proof fn end_autos_under_way(
    tasks: Seq<TaskModel>,
    state: StateModel,
    from: int,
    doing: Option<(int, u64)>,
)
    requires
        under_way(tasks, state, doing),
        due_now(tasks, state),
        0 <= from,
    ensures
        under_way(tasks, end_autos(tasks, state, from), doing),
        due_now(tasks, end_autos(tasks, state, from)),
        end_autos(tasks, state, from).time == state.time,
    decreases tasks.len() - from,
{
    if from < tasks.len() {
        if state.auto_end[from] == Some(state.time) {
            let ended = end_phase(tasks, state, from);
            phase_ends_under_way(tasks, state, from, doing, ended, doing);
            end_autos_under_way(tasks, ended, from + 1, doing);
        } else {
            end_autos_under_way(tasks, state, from + 1, doing);
        }
    }
}

/// In a settled state no automatic phase is due.
proof fn settled_is_due_now(tasks: Seq<TaskModel>, state: StateModel)
    requires
        is_settled(tasks, state),
        entries_in_range(state.entries, tasks.len()),
    ensures
        due_now(tasks, state),
{
    assert forall|p: int|
        0 <= p < state.entries.len() && auto_is_due(
            tasks,
            state,
            state.entries[p].task_index as int,
        ) && state.entries[p].phase_index + 1
            == state.phase[state.entries[p].task_index as int] implies #[trigger] state.entries[p].end_minutes
        == state.time by {
        let t = state.entries[p].task_index as int;
        assert(!ready(tasks, state, t, PhaseKind::Auto));
        assert(can_start(tasks, state, t));
    }
}

/// A settled state stays settled, and under way, when time passes that no phase ends in.
proof fn time_passes_under_way(
    tasks: Seq<TaskModel>,
    state: StateModel,
    time: u64,
    doing: Option<(int, u64)>,
)
    requires
        under_way(tasks, state, doing),
        is_settled(tasks, state),
        state.time <= time,
        forall|task: int|
            0 <= task < tasks.len() && #[trigger] state.auto_end[task] is Some ==> time
                <= state.auto_end[task]->0,
        doing matches Some((_, end)) ==> time <= end,
    ensures
        under_way(tasks, StateModel { time, ..state }, doing),
        is_settled(tasks, StateModel { time, ..state }),
{
    let there = StateModel { time, ..state };
    assert(state_fits(tasks, there));
    assert forall|task: int| 0 <= task < tasks.len() implies !#[trigger] ready(
        tasks,
        there,
        task,
        PhaseKind::Auto,
    ) by {
        assert(!ready(tasks, state, task, PhaseKind::Auto));
        assert(can_start(tasks, there, task) == can_start(tasks, state, task));
    }
    assert(begun_have_entries(tasks, there, doing)) by {
        assert forall|other: int, phase: int|
            0 <= other < tasks.len() && 0 <= phase < phases_begun(there, doing, other) implies #[trigger] has_entry(
                there.entries,
                other,
                phase,
            ) by {
            assert(phase < phases_begun(state, doing, other));
            assert(has_entry(state.entries, other, phase));
        }
    }
    assert(entries_have_begun(tasks, there, doing)) by {
        assert forall|p: int| 0 <= p < there.entries.len() implies ({
            let entry = #[trigger] there.entries[p];
            let t = entry.task_index as int;
            &&& entry.phase_index < phases_begun(there, doing, t)
            &&& if entry.phase_index < there.phase[t] {
                entry.end_minutes <= there.time
            } else {
                entry.end_minutes == end_in_hand(there, doing, t)
            }
        }) by {
            let entry = state.entries[p];
            assert(entry.phase_index < phases_begun(state, doing, entry.task_index as int));
        }
    }
    assert(dependencies_met(tasks, there)) by {
        assert forall|p: int, j: int|
            0 <= p < there.entries.len() && there.entries[p].phase_index == 0 && 0 <= j
                < tasks[there.entries[p].task_index as int].dependencies.len() implies ({
            let needed = #[trigger] tasks[there.entries[p].task_index as int].dependencies[j];
            &&& there.completion[needed as int] is Some
            &&& there.completion[needed as int]->0 <= there.entries[p].start_minutes
        }) by {
            let needed = tasks[state.entries[p].task_index as int].dependencies[j];
            assert(state.completion[needed as int] is Some);
        }
    }
    assert(completions_right(tasks, there)) by {
        assert forall|p: int|
            0 <= p < there.entries.len()
                && there.completion[there.entries[p].task_index as int] is Some
                && there.entries[p].phase_index + 1
                == tasks[there.entries[p].task_index as int].phases.len() implies there.completion[there.entries[p].task_index as int]->0
            == #[trigger] there.entries[p].end_minutes by {
            assert(state.entries[p].end_minutes == there.entries[p].end_minutes);
        }
    }
}

proof fn advance_under_way(
    tasks: Seq<TaskModel>,
    state: StateModel,
    next: u64,
    doing: Option<(int, u64)>,
)
    requires
        under_way(tasks, state, doing),
        is_settled(tasks, state),
        earliest_end(state.auto_end) == Some(next),
        doing matches Some((_, end)) ==> next <= end,
    ensures
        advance(tasks, state, next) matches Some(later) ==> {
            &&& under_way(tasks, later, doing)
            &&& is_settled(tasks, later)
            &&& later.time == next
        },
{
    let there = StateModel { time: next, ..state };
    earliest_end_is_least(state.auto_end);
    let k = choose|i: int| 0 <= i < state.auto_end.len() && state.auto_end[i] == Some(next);
    assert(state.auto_end[k] is Some);
    time_passes_under_way(tasks, state, next, doing);
    settled_is_due_now(tasks, there);
    end_autos_under_way(tasks, there, 0, doing);
    start_autos_under_way(tasks, end_autos(tasks, there, 0), 0, doing);
}

proof fn advance_until_under_way(
    tasks: Seq<TaskModel>,
    state: StateModel,
    task: int,
    end: u64,
)
    requires
        under_way(tasks, state, Some((task, end))),
        is_settled(tasks, state),
    ensures
        advance_until(tasks, state, end) matches Some(later) ==> {
            &&& under_way(tasks, later, Some((task, end)))
            &&& is_settled(tasks, later)
            &&& later.time == end
        },
    decreases work_left(tasks, state),
{
    let doing = Some((task, end));
    earliest_end_is_least(state.auto_end);
    match earliest_end(state.auto_end) {
        Some(next) if next <= end => {
            advance_keeps(tasks, state, next);
            advance_under_way(tasks, state, next, doing);
            if let Some(later) = advance(tasks, state, next) {
                advance_until_under_way(tasks, later, task, end);
            }
        },
        _ => {
            time_passes_under_way(tasks, state, end, doing);
        },
    }
}

proof fn do_manual_under_way(tasks: Seq<TaskModel>, state: StateModel, task: int)
    requires
        under_way(tasks, state, None),
        is_settled(tasks, state),
        0 <= task < tasks.len(),
        ready(tasks, state, task, PhaseKind::Manual),
    ensures
        do_manual(tasks, state, task) matches Some(later) ==> {
            &&& under_way(tasks, later, None)
            &&& is_settled(tasks, later)
        },
{
    if state.time + current_duration(tasks, state, task) <= u64::MAX {
        let entry = entry_now(tasks, state, task, PhaseKind::Manual);
        let begun = StateModel { entries: state.entries.push(entry), ..state };
        let end = entry.end_minutes;
        manual_begins_under_way(tasks, state, task);
        advance_until_under_way(tasks, begun, task, end);
        if let Some(later) = advance_until(tasks, begun, end) {
            let ended = end_manual(tasks, later, task);
            settled_is_due_now(tasks, later);
            phase_ends_under_way(tasks, later, task, Some((task, end)), ended, None);
            start_autos_under_way(tasks, ended, 0, None);
        }
    }
}

proof fn manual_begins_under_way(tasks: Seq<TaskModel>, state: StateModel, task: int)
    requires
        under_way(tasks, state, None),
        is_settled(tasks, state),
        0 <= task < tasks.len(),
        ready(tasks, state, task, PhaseKind::Manual),
        state.time + current_duration(tasks, state, task) <= u64::MAX,
    ensures
        ({
            let entry = entry_now(tasks, state, task, PhaseKind::Manual);
            let begun = StateModel { entries: state.entries.push(entry), ..state };
            &&& under_way(tasks, begun, Some((task, entry.end_minutes)))
            &&& is_settled(tasks, begun)
        }),
{
    let entry = entry_now(tasks, state, task, PhaseKind::Manual);
    let begun = StateModel { entries: state.entries.push(entry), ..state };
    let doing = Some((task, entry.end_minutes));
    let last = state.entries.len() as int;
    settled_is_due_now(tasks, state);
    entry_begins(tasks, state, task, PhaseKind::Manual, None);
    assert(begun.entries.drop_last() == state.entries);
    begun_after_entry(tasks, state, None, begun, doing, task);
    assert(state_fits(tasks, begun));
    assert(entries_have_begun(tasks, begun, doing)) by {
        assert forall|p: int| 0 <= p < begun.entries.len() implies ({
            let entry = #[trigger] begun.entries[p];
            let t = entry.task_index as int;
            &&& entry.phase_index < phases_begun(begun, doing, t)
            &&& if entry.phase_index < begun.phase[t] {
                entry.end_minutes <= begun.time
            } else {
                entry.end_minutes == end_in_hand(begun, doing, t)
            }
        }) by {
            if p < last {
                assert(begun.entries[p] == state.entries[p]);
                let t = state.entries[p].task_index as int;
                assert(state.entries[p].phase_index < phases_begun(state, None, t));
            }
        }
    }
    assert(completions_right(tasks, begun)) by {
        assert forall|p: int|
            0 <= p < begun.entries.len()
                && begun.completion[begun.entries[p].task_index as int] is Some
                && begun.entries[p].phase_index + 1
                == tasks[begun.entries[p].task_index as int].phases.len() implies begun.completion[begun.entries[p].task_index as int]->0
            == #[trigger] begun.entries[p].end_minutes by {
            if p < last {
                assert(begun.entries[p] == state.entries[p]);
            } else {
                assert(state.completion[task] is Some);
            }
        }
    }
    assert forall|t: int| 0 <= t < tasks.len() implies !#[trigger] ready(
        tasks,
        begun,
        t,
        PhaseKind::Auto,
    ) by {
        assert(!ready(tasks, state, t, PhaseKind::Auto));
        assert(can_start(tasks, begun, t) == can_start(tasks, state, t));
    }
}

/// A state under way in which every task is completed stands for a valid schedule.
proof fn completed_is_valid(tasks: Seq<TaskModel>, state: StateModel)
    requires
        under_way(tasks, state, None),
        all_completed(state),
    ensures
        is_valid(tasks, schedule_of(tasks, state)),
{
    let schedule = schedule_of(tasks, state);
    assert forall|task: int, phase: int|
        0 <= task < tasks.len() && 0 <= phase
            < tasks[task].phases.len() implies #[trigger] has_entry(
        schedule.entries,
        task,
        phase,
    ) by {
        assert(state.completion[task] is Some);
        assert(has_entry(state.entries, task, phase));
    }
    assert forall|p: int, j: int|
        0 <= p < schedule.entries.len() && schedule.entries[p].phase_index == 0 && 0 <= j
            < tasks[schedule.entries[p].task_index as int].dependencies.len() implies schedule.completion[#[trigger] tasks[schedule.entries[p].task_index as int].dependencies[j] as int]
        <= schedule.entries[p].start_minutes by {
        let needed = tasks[state.entries[p].task_index as int].dependencies[j];
        assert(state.completion[needed as int] is Some);
    }
    assert forall|p: int|
        0 <= p < schedule.entries.len() && schedule.entries[p].phase_index + 1
            == tasks[schedule.entries[p].task_index as int].phases.len() implies schedule.completion[schedule.entries[p].task_index as int]
        == #[trigger] schedule.entries[p].end_minutes by {
        assert(state.completion[state.entries[p].task_index as int] is Some);
        assert(state.entries[p].end_minutes == schedule.entries[p].end_minutes);
    }
}

/// The state in which no work has begun is under way.
proof fn initial_under_way(tasks: Seq<TaskModel>)
    requires
        dependencies_in_range(tasks),
        tasks.len() <= usize::MAX,
        forall|i: int| 0 <= i < tasks.len() ==> (#[trigger] tasks[i]).phases.len() <= usize::MAX,
    ensures
        under_way(tasks, initial_state(tasks), None),
        due_now(tasks, initial_state(tasks)),
{
    let state = initial_state(tasks);
    assert forall|i: int| 0 <= i < tasks.len() implies #[trigger] state.phase[i]
        <= tasks[i].phases.len() <= usize::MAX by {}
    assert(state_fits(tasks, state));
}

proof fn found_are_valid(tasks: Seq<TaskModel>, state: StateModel, visited: nat)
    requires
        under_way(tasks, state, None),
        is_settled(tasks, state),
    ensures
        forall|k: int|
            0 <= k < explore(tasks, state, visited).found.len() ==> is_valid(
                tasks,
                #[trigger] explore(tasks, state, visited).found[k],
            ),
    decreases work_left(tasks, state), tasks.len() + 1,
{
    if visited + 1 <= MAX_SEARCH_NODES {
        if all_completed(state) {
            completed_is_valid(tasks, state);
        } else {
            phases_left_bounds(tasks, state.phase, tasks.len() as int);
            found_after_manuals_are_valid(tasks, state, 0, visited + 1);
            let done = explore_manuals(tasks, state, 0, visited + 1);
            if let Some(next) = earliest_end(state.auto_end) {
                advance_keeps(tasks, state, next);
                advance_under_way(tasks, state, next, None);
                if let Some(later) = advance(tasks, state, next) {
                    found_are_valid(tasks, later, done.visited);
                }
            }
        }
    }
}

proof fn found_after_manuals_are_valid(
    tasks: Seq<TaskModel>,
    state: StateModel,
    from: int,
    visited: nat,
)
    requires
        under_way(tasks, state, None),
        is_settled(tasks, state),
        0 <= from,
    ensures
        forall|k: int|
            0 <= k < explore_manuals(tasks, state, from, visited).found.len() ==> is_valid(
                tasks,
                #[trigger] explore_manuals(tasks, state, from, visited).found[k],
            ),
    decreases work_left(tasks, state), tasks.len() - from,
{
    if from < tasks.len() {
        if !ready(tasks, state, from, PhaseKind::Manual) {
            found_after_manuals_are_valid(tasks, state, from + 1, visited);
        } else {
            do_manual_keeps(tasks, state, from);
            do_manual_under_way(tasks, state, from);
            if let Some(later) = do_manual(tasks, state, from) {
                found_are_valid(tasks, later, visited);
                let done = explore(tasks, later, visited);
                found_after_manuals_are_valid(tasks, state, from + 1, done.visited);
            }
        }
    }
}

/// The tasks fit into memory, and what they depend on are tasks.
pub open spec fn tasks_fit(tasks: Seq<TaskModel>) -> bool {
    &&& dependencies_in_range(tasks)
    &&& tasks.len() <= usize::MAX
    &&& forall|i: int| 0 <= i < tasks.len() ==> (#[trigger] tasks[i]).phases.len() <= usize::MAX
}

/// Every schedule that the search finds carries out the tasks.
pub proof fn schedules_are_valid(tasks: Seq<TaskModel>)
    requires
        tasks_fit(tasks),
    ensures
        start_autos(tasks, initial_state(tasks), 0) matches Some(begun) ==> forall|k: int|
            0 <= k < explore(tasks, begun, 0).found.len() ==> is_valid(
                tasks,
                #[trigger] explore(tasks, begun, 0).found[k],
            ),
{
    initial_under_way(tasks);
    start_autos_under_way(tasks, initial_state(tasks), 0, None);
    if let Some(begun) = start_autos(tasks, initial_state(tasks), 0) {
        found_are_valid(tasks, begun, 0);
    }
}

/// In a valid schedule a task is completed after all that it depends on, if every phase takes
/// time: so where the dependencies run in a circle there is no valid schedule.
pub proof fn completed_after_dependencies(
    tasks: Seq<TaskModel>,
    schedule: ScheduleModel,
    task: int,
    j: int,
)
    requires
        is_valid(tasks, schedule),
        0 <= task < tasks.len(),
        0 <= j < tasks[task].dependencies.len(),
        tasks[task].phases.len() > 0,
        forall|k: int|
            0 <= k < tasks[task].phases.len() ==> (#[trigger] tasks[task].phases[k]).duration_minutes
                > 0,
    ensures
        schedule.completion[tasks[task].dependencies[j] as int] < schedule.completion[task],
{
    let needed = tasks[task].dependencies[j] as int;
    assert(has_entry(schedule.entries, task, 0));
    let p = choose|p: int| #[trigger] is_entry(schedule.entries, p, task, 0);
    assert(is_entry(schedule.entries, p, task, 0));
    assert(schedule.entries[p].task_index == task);
    assert(schedule.completion[tasks[schedule.entries[p].task_index as int].dependencies[j] as int]
        <= schedule.entries[p].start_minutes);
    ends_by_completion(tasks, schedule, task, 0, p);
    assert(tasks[task].phases[0].duration_minutes > 0);
}

/// In a valid schedule no phase of a task ends after the task is completed.
proof fn ends_by_completion(
    tasks: Seq<TaskModel>,
    schedule: ScheduleModel,
    task: int,
    phase: int,
    p: int,
)
    requires
        is_valid(tasks, schedule),
        0 <= task < tasks.len(),
        0 <= phase < tasks[task].phases.len(),
        is_entry(schedule.entries, p, task, phase),
    ensures
        schedule.entries[p].end_minutes <= schedule.completion[task],
    decreases tasks[task].phases.len() - phase,
{
    if phase + 1 < tasks[task].phases.len() {
        assert(has_entry(schedule.entries, task, phase + 1));
        let q = choose|q: int| #[trigger] is_entry(schedule.entries, q, task, phase + 1);
        assert(is_entry(schedule.entries, q, task, phase + 1));
        ends_by_completion(tasks, schedule, task, phase + 1, q);
        assert(schedule.entries[p].task_index == schedule.entries[q].task_index);
    } else {
        assert(schedule.entries[p].end_minutes == schedule.completion[task]);
    }
}

/// To be better is a strict order: if the first is better than the second, and the third is not
/// better than the second, the first is better than the third.
pub proof fn better_is_strict_order(
    first: ScheduleModel,
    second: ScheduleModel,
    third: ScheduleModel,
    tasks: Seq<TaskModel>,
)
    ensures
        !better(first, first, tasks),
        better(first, second, tasks) && better(second, third, tasks) ==> better(
            first,
            third,
            tasks,
        ),
        better(first, second, tasks) && !better(third, second, tasks) ==> better(
            first,
            third,
            tasks,
        ),
{
    let a = manual_ids(first.entries, tasks);
    let b = manual_ids(second.entries, tasks);
    let c = manual_ids(third.entries, tasks);
    texts_before_total(a, a);
    texts_before_total(b, c);
    if texts_before(a, b) && texts_before(b, c) {
        texts_before_transitive(a, b, c);
    }
}

/// No schedule found is better than the one that is kept, and those found before it are worse.
pub proof fn kept_is_first_of_the_best(found: Seq<ScheduleModel>, tasks: Seq<TaskModel>)
    requires
        found.len() > 0,
    ensures
        best_of(None, found, tasks) is Some,
        exists|at: int| #[trigger] is_first_of_the_best(found, at, tasks) && found[at]
            == best_of(None, found, tasks)->0,
    decreases found.len(),
{
    let rest = found.drop_last();
    let last = found.len() - 1;
    if rest.len() == 0 {
        reveal_with_fuel(best_of, 2);
        better_is_strict_order(found[0], found[0], found[0], tasks);
        assert(is_first_of_the_best(found, 0, tasks));
    } else {
        kept_is_first_of_the_best(rest, tasks);
        let before = best_of(None, rest, tasks)->0;
        let at = choose|at: int|
            #[trigger] is_first_of_the_best(rest, at, tasks) && rest[at] == before;
        assert(is_first_of_the_best(rest, at, tasks) && rest[at] == before);
        if better(found[last], before, tasks) {
            assert forall|k: int| 0 <= k < found.len() implies !better(
                #[trigger] found[k],
                found[last],
                tasks,
            ) by {
                if k < last {
                    assert(rest[k] == found[k]);
                }
                better_is_strict_order(found[k], found[last], before, tasks);
            }
            assert forall|k: int| 0 <= k < last implies better(
                found[last],
                #[trigger] found[k],
                tasks,
            ) by {
                assert(rest[k] == found[k]);
                better_is_strict_order(found[last], before, found[k], tasks);
            }
            assert(is_first_of_the_best(found, last, tasks));
        } else {
            assert forall|k: int| 0 <= k < found.len() implies !better(
                #[trigger] found[k],
                found[at],
                tasks,
            ) by {
                if k < last {
                    assert(rest[k] == found[k]);
                }
            }
            assert forall|k: int| 0 <= k < at implies better(
                found[at],
                #[trigger] found[k],
                tasks,
            ) by {
                assert(rest[k] == found[k]);
            }
            assert(is_first_of_the_best(found, at, tasks));
        }
    }
}

/// No schedule is better than that at `at`, and those before it are worse.
pub open spec fn is_first_of_the_best(
    found: Seq<ScheduleModel>,
    at: int,
    tasks: Seq<TaskModel>,
) -> bool {
    &&& 0 <= at < found.len()
    &&& forall|k: int| 0 <= k < found.len() ==> !better(#[trigger] found[k], found[at], tasks)
    &&& forall|k: int| 0 <= k < at ==> better(found[at], #[trigger] found[k], tasks)
}

/// What one person can decide next: to do the manual phase that a task has come to, or to wait
/// for the next automatic phase to end.
pub enum Decision {
    Do(int),
    Wait,
}

/// The state that the decisions lead to, one after another; `None` if one of them cannot be
/// taken. When every task is completed there is nothing to decide.
pub open spec fn outcome(
    tasks: Seq<TaskModel>,
    state: StateModel,
    decisions: Seq<Decision>,
) -> Option<StateModel>
    decreases decisions.len(),
{
    if decisions.len() == 0 {
        Some(state)
    } else if all_completed(state) {
        None
    } else {
        let next = match decisions[0] {
            Decision::Do(task) => if 0 <= task < tasks.len() && ready(
                tasks,
                state,
                task,
                PhaseKind::Manual,
            ) {
                do_manual(tasks, state, task)
            } else {
                None
            },
            Decision::Wait => match earliest_end(state.auto_end) {
                Some(end) => advance(tasks, state, end),
                None => None,
            },
        };
        match next {
            Some(later) => outcome(tasks, later, decisions.drop_first()),
            None => None,
        }
    }
}

/// A search that nothing stops finds every schedule that decisions lead to.
pub proof fn every_outcome_is_found(
    tasks: Seq<TaskModel>,
    state: StateModel,
    decisions: Seq<Decision>,
    visited: nat,
)
    requires
        state_fits(tasks, state),
        explore(tasks, state, visited).failure is None,
        outcome(tasks, state, decisions) matches Some(end) && all_completed(end),
    ensures
        explore(tasks, state, visited).found.contains(
            schedule_of(tasks, outcome(tasks, state, decisions)->0),
        ),
    decreases decisions.len(),
{
    let explored = explore(tasks, state, visited);
    let wanted = schedule_of(tasks, outcome(tasks, state, decisions)->0);
    if decisions.len() == 0 {
        assert(explored.found[0] == wanted);
    } else {
        let done = explore_manuals(tasks, state, 0, visited + 1);
        match decisions[0] {
            Decision::Do(task) => {
                do_manual_keeps(tasks, state, task);
                let later = do_manual(tasks, state, task)->0;
                let start = task_is_explored(tasks, state, 0, visited + 1, task);
                every_outcome_is_found(tasks, later, decisions.drop_first(), start);
                let part = explore(tasks, later, start).found;
                let k = choose|k: int| 0 <= k < part.len() && part[k] == wanted;
                assert(done.found.contains(part[k]));
                let m = choose|m: int| 0 <= m < done.found.len() && done.found[m] == wanted;
                assert(explored.found[m] == wanted);
            },
            Decision::Wait => {
                let next = earliest_end(state.auto_end)->0;
                advance_keeps(tasks, state, next);
                let later = advance(tasks, state, next)->0;
                every_outcome_is_found(tasks, later, decisions.drop_first(), done.visited);
                let part = explore(tasks, later, done.visited).found;
                let k = choose|k: int| 0 <= k < part.len() && part[k] == wanted;
                assert(explored.found[done.found.len() + k] == wanted);
            },
        }
    }
}

/// The search goes through the state that follows each manual phase that can begin, from some
/// number of states visited on.
pub(crate) proof fn task_is_explored(
    tasks: Seq<TaskModel>,
    state: StateModel,
    from: int,
    visited: nat,
    task: int,
) -> (start: nat)
    requires
        state_fits(tasks, state),
        0 <= from <= task < tasks.len(),
        ready(tasks, state, task, PhaseKind::Manual),
        explore_manuals(tasks, state, from, visited).failure is None,
    ensures
        do_manual(tasks, state, task) is Some,
        do_manual(tasks, state, task) matches Some(later) ==> {
            &&& explore(tasks, later, start).failure is None
            &&& forall|k: int|
                0 <= k < explore(tasks, later, start).found.len() ==> explore_manuals(
                    tasks,
                    state,
                    from,
                    visited,
                ).found.contains(#[trigger] explore(tasks, later, start).found[k])
        },
    decreases task - from,
{
    let all = explore_manuals(tasks, state, from, visited);
    if !ready(tasks, state, from, PhaseKind::Manual) {
        task_is_explored(tasks, state, from + 1, visited, task)
    } else {
        do_manual_keeps(tasks, state, from);
        match do_manual(tasks, state, from) {
            None => visited,
            Some(later) => {
                let done = explore(tasks, later, visited);
                if from == task {
                    assert forall|k: int| 0 <= k < done.found.len() implies all.found.contains(
                        #[trigger] done.found[k],
                    ) by {
                        assert(all.found[k] == done.found[k]);
                    }
                    visited
                } else {
                    let rest = explore_manuals(tasks, state, from + 1, done.visited);
                    let start = task_is_explored(tasks, state, from + 1, done.visited, task);
                    if let Some(wanted) = do_manual(tasks, state, task) {
                        let part = explore(tasks, wanted, start).found;
                        assert forall|k: int| 0 <= k < part.len() implies all.found.contains(
                            #[trigger] part[k],
                        ) by {
                            let m = choose|m: int|
                                0 <= m < rest.found.len() && rest.found[m] == part[k];
                            assert(all.found[done.found.len() + m] == part[k]);
                        }
                    }
                    start
                }
            },
        }
    }
}

/// The schedule that a search which nothing stops keeps carries out the tasks, and no decisions
/// lead to a better one.
pub proof fn best_schedule_is_best(tasks: Seq<TaskModel>, decisions: Seq<Decision>)
    requires
        tasks_fit(tasks),
        start_autos(tasks, initial_state(tasks), 0) matches Some(begun) && explore(
            tasks,
            begun,
            0,
        ).failure is None,
    ensures
        ({
            let begun = start_autos(tasks, initial_state(tasks), 0)->0;
            let best = best_of(None, explore(tasks, begun, 0).found, tasks);
            &&& best is Some
            &&& is_valid(tasks, best->0)
            &&& outcome(tasks, begun, decisions) matches Some(end) ==> all_completed(end)
                ==> !better(schedule_of(tasks, end), best->0, tasks)
        }),
{
    initial_under_way(tasks);
    start_autos_under_way(tasks, initial_state(tasks), 0, None);
    schedules_are_valid(tasks);
    let begun = start_autos(tasks, initial_state(tasks), 0)->0;
    let found = explore(tasks, begun, 0).found;
    crate::schedule_search::explore_finds(tasks, begun, 0);
    kept_is_first_of_the_best(found, tasks);
    let best = best_of(None, found, tasks)->0;
    let at = choose|at: int|
        #[trigger] is_first_of_the_best(found, at, tasks) && found[at] == best;
    assert(is_first_of_the_best(found, at, tasks) && found[at] == best);
    if let Some(end) = outcome(tasks, begun, decisions) {
        if all_completed(end) {
            every_outcome_is_found(tasks, begun, decisions, 0);
            let k = choose|k: int| 0 <= k < found.len() && found[k] == schedule_of(tasks, end);
            assert(!better(found[k], found[at], tasks));
        }
    }
}

/// Whether each task has a higher rank than all that it depends on: then the dependencies run
/// in no circle.
pub open spec fn ranks_fit(tasks: Seq<TaskModel>, rank: spec_fn(int) -> nat) -> bool {
    forall|i: int, j: int|
        0 <= i < tasks.len() && 0 <= j < tasks[i].dependencies.len() ==> rank(
            #[trigger] tasks[i].dependencies[j] as int,
        ) < rank(i)
}

/// Where the dependencies run in no circle and every task has a phase, the search is never
/// stopped for a cycle.
pub proof fn no_cycle_is_no_cycle_failure(tasks: Seq<TaskModel>, rank: spec_fn(int) -> nat)
    requires
        tasks_fit(tasks),
        ranks_fit(tasks, rank),
        forall|i: int| 0 <= i < tasks.len() ==> (#[trigger] tasks[i]).phases.len() > 0,
    ensures
        start_autos(tasks, initial_state(tasks), 0) matches Some(begun) ==> explore(
            tasks,
            begun,
            0,
        ).failure != Some(ScheduleFailure::Cycle),
{
    initial_under_way(tasks);
    start_autos_under_way(tasks, initial_state(tasks), 0, None);
    if let Some(begun) = start_autos(tasks, initial_state(tasks), 0) {
        no_cycle_from(tasks, rank, begun, 0);
    }
}

proof fn no_cycle_from(
    tasks: Seq<TaskModel>,
    rank: spec_fn(int) -> nat,
    state: StateModel,
    visited: nat,
)
    requires
        under_way(tasks, state, None),
        is_settled(tasks, state),
        ranks_fit(tasks, rank),
        forall|i: int| 0 <= i < tasks.len() ==> (#[trigger] tasks[i]).phases.len() > 0,
    ensures
        explore(tasks, state, visited).failure != Some(ScheduleFailure::Cycle),
    decreases work_left(tasks, state), tasks.len() + 1,
{
    if visited + 1 <= MAX_SEARCH_NODES && !all_completed(state) {
        phases_left_bounds(tasks, state.phase, tasks.len() as int);
        no_cycle_after_manuals(tasks, rank, state, 0, visited + 1);
        let done = explore_manuals(tasks, state, 0, visited + 1);
        match earliest_end(state.auto_end) {
            Some(next) => {
                advance_keeps(tasks, state, next);
                advance_under_way(tasks, state, next, None);
                if let Some(later) = advance(tasks, state, next) {
                    no_cycle_from(tasks, rank, later, done.visited);
                }
            },
            None => {
                earliest_end_is_least(state.auto_end);
                let open = choose|i: int|
                    0 <= i < state.completion.len() && !(#[trigger] state.completion[i] is Some);
                open_task_is_ready(tasks, rank, state, open);
            },
        }
    }
}

/// Where a task is not completed, nothing runs and no automatic phase can begin, some manual
/// phase can.
proof fn open_task_is_ready(
    tasks: Seq<TaskModel>,
    rank: spec_fn(int) -> nat,
    state: StateModel,
    open: int,
)
    requires
        under_way(tasks, state, None),
        is_settled(tasks, state),
        ranks_fit(tasks, rank),
        forall|i: int| 0 <= i < tasks.len() ==> (#[trigger] tasks[i]).phases.len() > 0,
        forall|i: int| 0 <= i < tasks.len() ==> #[trigger] state.auto_end[i] is None,
        0 <= open < tasks.len(),
        state.completion[open] is None,
    ensures
        some_manual_ready(tasks, state),
    decreases rank(open),
{
    assert(state.phase[open] < tasks[open].phases.len());
    if can_start(tasks, state, open) {
        assert(!ready(tasks, state, open, PhaseKind::Auto));
        assert(state.auto_end[open] is None);
        assert(ready(tasks, state, open, PhaseKind::Manual));
    } else {
        let j = choose|j: int|
            0 <= j < tasks[open].dependencies.len()
                && !(state.completion[#[trigger] tasks[open].dependencies[j] as int] is Some);
        open_task_is_ready(tasks, rank, state, tasks[open].dependencies[j] as int);
    }
}

proof fn no_cycle_after_manuals(
    tasks: Seq<TaskModel>,
    rank: spec_fn(int) -> nat,
    state: StateModel,
    from: int,
    visited: nat,
)
    requires
        under_way(tasks, state, None),
        is_settled(tasks, state),
        ranks_fit(tasks, rank),
        forall|i: int| 0 <= i < tasks.len() ==> (#[trigger] tasks[i]).phases.len() > 0,
        0 <= from,
    ensures
        explore_manuals(tasks, state, from, visited).failure != Some(ScheduleFailure::Cycle),
    decreases work_left(tasks, state), tasks.len() - from,
{
    if from < tasks.len() {
        if !ready(tasks, state, from, PhaseKind::Manual) {
            no_cycle_after_manuals(tasks, rank, state, from + 1, visited);
        } else {
            do_manual_keeps(tasks, state, from);
            do_manual_under_way(tasks, state, from);
            if let Some(later) = do_manual(tasks, state, from) {
                no_cycle_from(tasks, rank, later, visited);
                let done = explore(tasks, later, visited);
                no_cycle_after_manuals(tasks, rank, state, from + 1, done.visited);
            }
        }
    }
}

} // verus!
