//! No plan that carries out the tasks is better than the schedule that the search returns.
//!
//! A plan may begin every phase at any time, as long as it keeps the order of the phases and the
//! dependencies, and does no two manual phases at a time. The search only begins phases as soon
//! as it can, but it can follow any plan: if it does the manual phases in the order of the plan,
//! it is never later than the plan.
use vstd::prelude::*;

use crate::schedule_model::PhaseKind;

verus! {

use crate::schedule_laws::{
    is_first_of_the_best, is_settled, kept_is_first_of_the_best, task_is_explored, tasks_fit,
};
use crate::schedule_model::{
    advance, advance_keeps, advance_until, all_completed, begin_auto, best_of, better, can_start,
    current_duration, dependencies_in_range, do_manual, do_manual_keeps, earliest_end,
    earliest_end_is_least, end_autos, end_manual, end_phase, entry_now, explore, explore_manuals,
    initial_state, latest, phases_left_bounds, ready, schedule_of, some_manual_ready, start_autos,
    state_fits, weight, weighted_sum, work_left, ScheduleModel, StateModel, TaskModel,
};

/// When each phase of each task begins.
pub type Plan = Seq<Seq<int>>;

/// When a phase ends.
pub open spec fn plan_end(tasks: Seq<TaskModel>, plan: Plan, task: int, phase: int) -> int {
    plan[task][phase] + tasks[task].phases[phase].duration_minutes
}

/// When a task is completed.
pub open spec fn plan_completion(tasks: Seq<TaskModel>, plan: Plan, task: int) -> int {
    plan_end(tasks, plan, task, tasks[task].phases.len() - 1)
}

/// Whether a task has a phase at a place, and it is a manual one.
pub open spec fn is_manual(tasks: Seq<TaskModel>, task: int, phase: int) -> bool {
    &&& 0 <= task < tasks.len()
    &&& 0 <= phase < tasks[task].phases.len()
    &&& tasks[task].phases[phase].kind == PhaseKind::Manual
}

/// Whether two phases do not overlap.
pub open spec fn are_apart(
    tasks: Seq<TaskModel>,
    plan: Plan,
    task: int,
    phase: int,
    other: int,
    other_phase: int,
) -> bool {
    plan_end(tasks, plan, task, phase) <= plan[other][other_phase] || plan_end(
        tasks,
        plan,
        other,
        other_phase,
    ) <= plan[task][phase]
}

/// Whether a plan carries out the tasks: it begins every phase of every task, the first ones not
/// before the start, each when the one before it has ended, a task when all that it depends on is
/// completed, and no two manual phases at a time.
pub open spec fn is_plan(tasks: Seq<TaskModel>, plan: Plan) -> bool {
    &&& plan.len() == tasks.len()
    &&& forall|task: int|
        0 <= task < tasks.len() ==> (#[trigger] plan[task]).len() == tasks[task].phases.len()
    &&& forall|task: int, phase: int|
        0 <= task < tasks.len() && 0 <= phase < tasks[task].phases.len()
            ==> #[trigger] plan[task][phase] >= (if phase == 0 {
            0
        } else {
            plan_end(tasks, plan, task, phase - 1)
        })
    &&& forall|task: int, j: int|
        0 <= task < tasks.len() && 0 <= j < tasks[task].dependencies.len() ==> plan_completion(
            tasks,
            plan,
            #[trigger] tasks[task].dependencies[j] as int,
        ) <= plan[task][0]
    &&& forall|task: int, phase: int, other: int, other_phase: int|
        #[trigger] is_manual(tasks, task, phase) && #[trigger] is_manual(tasks, other, other_phase)
            && (task != other || phase != other_phase) ==> are_apart(
            tasks,
            plan,
            task,
            phase,
            other,
            other_phase,
        )
}

/// Whether every task has a phase, and every phase takes some time.
pub open spec fn phases_take_time(tasks: Seq<TaskModel>) -> bool {
    &&& forall|task: int| 0 <= task < tasks.len() ==> (#[trigger] tasks[task]).phases.len() > 0
    &&& forall|task: int, phase: int|
        0 <= task < tasks.len() && 0 <= phase < tasks[task].phases.len() ==> (
        #[trigger] tasks[task].phases[phase]).duration_minutes > 0
}

/// When the tasks are completed by a plan.
pub open spec fn plan_completions(tasks: Seq<TaskModel>, plan: Plan) -> Seq<int> {
    Seq::new(tasks.len(), |task: int| plan_completion(tasks, plan, task))
}

/// The sum of the first `count` times, each times its task's weight.
pub open spec fn weighted_times(tasks: Seq<TaskModel>, times: Seq<int>, count: int) -> int
    decreases count,
{
    if count <= 0 {
        0
    } else {
        weighted_times(tasks, times, count - 1) + weight(tasks[count - 1].priority as int)
            * times[count - 1]
    }
}

/// The latest of the times, none of which is negative.
pub open spec fn latest_time(times: Seq<int>) -> int
    decreases times.len(),
{
    if times.len() == 0 {
        0
    } else {
        let before = latest_time(times.drop_last());
        if times.last() > before {
            times.last()
        } else {
            before
        }
    }
}

/// Whether a schedule is at least as good as a plan: it has the smaller weighted sum of
/// completion times, or the same sum and no larger makespan.
pub open spec fn is_as_good(
    tasks: Seq<TaskModel>,
    schedule: ScheduleModel,
    plan: Plan,
) -> bool {
    let times = plan_completions(tasks, plan);
    let weighted = weighted_times(tasks, times, tasks.len() as int);
    ||| schedule.weighted < weighted
    ||| schedule.weighted == weighted && schedule.makespan <= latest_time(times)
}

/// A later phase begins when an earlier one has ended.
proof fn phases_in_order(tasks: Seq<TaskModel>, plan: Plan, task: int, phase: int, later: int)
    requires
        is_plan(tasks, plan),
        0 <= task < tasks.len(),
        0 <= phase < later < tasks[task].phases.len(),
    ensures
        plan_end(tasks, plan, task, phase) <= plan[task][later],
    decreases later - phase,
{
    if phase + 1 < later {
        phases_in_order(tasks, plan, task, phase, later - 1);
        assert(plan[task][later] >= plan_end(tasks, plan, task, later - 1));
    } else {
        assert(plan[task][later] >= plan_end(tasks, plan, task, later - 1));
    }
}

/// A phase ends by the completion of its task.
proof fn ends_by_completion(tasks: Seq<TaskModel>, plan: Plan, task: int, phase: int)
    requires
        is_plan(tasks, plan),
        0 <= task < tasks.len(),
        0 <= phase < tasks[task].phases.len(),
    ensures
        plan_end(tasks, plan, task, phase) <= plan_completion(tasks, plan, task),
{
    let last = tasks[task].phases.len() - 1;
    if phase < last {
        phases_in_order(tasks, plan, task, phase, last);
    }
}

/// No phase begins before the start.
proof fn begins_after_start(tasks: Seq<TaskModel>, plan: Plan, task: int, phase: int)
    requires
        is_plan(tasks, plan),
        0 <= task < tasks.len(),
        0 <= phase < tasks[task].phases.len(),
    ensures
        0 <= plan[task][phase],
{
    assert(plan[task][0] >= 0);
    if phase > 0 {
        phases_in_order(tasks, plan, task, 0, phase);
    }
}

/// Whether a state is not later than a plan: what is completed was completed by then, and what
/// runs will have ended by then.
spec fn keeps_up(tasks: Seq<TaskModel>, plan: Plan, state: StateModel) -> bool {
    &&& state_fits(tasks, state)
    &&& forall|task: int|
        0 <= task < tasks.len() ==> (#[trigger] state.completion[task] is Some
            <==> state.phase[task] == tasks[task].phases.len())
    &&& forall|task: int|
        0 <= task < tasks.len() && #[trigger] state.completion[task] is Some
            ==> state.completion[task]->0 <= plan_completion(tasks, plan, task)
    &&& forall|task: int|
        0 <= task < tasks.len() && #[trigger] state.auto_end[task] is Some ==> {
            &&& tasks[task].phases[state.phase[task] as int].kind == PhaseKind::Auto
            &&& state.time <= state.auto_end[task]->0
            &&& state.auto_end[task]->0 <= plan_end(tasks, plan, task, state.phase[task] as int)
        }
}

/// Whether no automatic phase that can begin now begins later than in the plan.
spec fn autos_in_time(tasks: Seq<TaskModel>, plan: Plan, state: StateModel) -> bool {
    forall|task: int|
        0 <= task < tasks.len() && #[trigger] ready(tasks, state, task, PhaseKind::Auto)
            ==> state.time <= plan[task][state.phase[task] as int]
}

/// Whether a manual phase is still to be done.
spec fn is_ahead(tasks: Seq<TaskModel>, state: StateModel, task: int, phase: int) -> bool {
    is_manual(tasks, task, phase) && state.phase[task] <= phase
}

/// Whether no manual phase that is still to be done begins in the plan before a time.
spec fn manuals_begin_from(
    tasks: Seq<TaskModel>,
    plan: Plan,
    state: StateModel,
    time: int,
) -> bool {
    forall|task: int, phase: int| #[trigger]
        is_ahead(tasks, state, task, phase) ==> time <= plan[task][phase]
}

/// Beginning the automatic phases that can begin keeps up with the plan.
proof fn start_autos_keeps_up(tasks: Seq<TaskModel>, plan: Plan, state: StateModel, from: int)
    requires
        is_plan(tasks, plan),
        keeps_up(tasks, plan, state),
        autos_in_time(tasks, plan, state),
        0 <= from <= tasks.len(),
        forall|task: int|
            0 <= task < from ==> !#[trigger] ready(tasks, state, task, PhaseKind::Auto),
    ensures
        start_autos(tasks, state, from) matches Some(later) ==> {
            &&& keeps_up(tasks, plan, later)
            &&& is_settled(tasks, later)
            &&& later.time == state.time
            &&& later.phase == state.phase
        },
    decreases tasks.len() - from,
{
    if from < tasks.len() {
        if !ready(tasks, state, from, PhaseKind::Auto) {
            start_autos_keeps_up(tasks, plan, state, from + 1);
        } else if state.time + current_duration(tasks, state, from) <= u64::MAX {
            let begun = begin_auto(tasks, state, from);
            assert(state_fits(tasks, begun));
            assert forall|task: int| 0 <= task < tasks.len() && #[trigger] ready(
                tasks,
                begun,
                task,
                PhaseKind::Auto,
            ) implies ready(tasks, state, task, PhaseKind::Auto) && task != from by {
                assert(can_start(tasks, begun, task) == can_start(tasks, state, task));
            }
            assert(keeps_up(tasks, plan, begun)) by {
                assert forall|task: int|
                    0 <= task < tasks.len() && #[trigger] begun.auto_end[task] is Some implies {
                    &&& tasks[task].phases[begun.phase[task] as int].kind == PhaseKind::Auto
                    &&& begun.time <= begun.auto_end[task]->0
                    &&& begun.auto_end[task]->0 <= plan_end(
                        tasks,
                        plan,
                        task,
                        begun.phase[task] as int,
                    )
                } by {
                    if task != from {
                        assert(state.auto_end[task] is Some);
                    }
                }
            }
            start_autos_keeps_up(tasks, plan, begun, from + 1);
        }
    }
}

/// A phase that ends now, and in the plan not before, keeps up with the plan.
proof fn phase_end_keeps_up(tasks: Seq<TaskModel>, plan: Plan, state: StateModel, task: int)
    requires
        is_plan(tasks, plan),
        dependencies_in_range(tasks),
        keeps_up(tasks, plan, state),
        autos_in_time(tasks, plan, state),
        0 <= task < tasks.len(),
        state.phase[task] < tasks[task].phases.len(),
        state.time <= plan_end(tasks, plan, task, state.phase[task] as int),
    ensures
        keeps_up(tasks, plan, end_phase(tasks, state, task)),
        autos_in_time(tasks, plan, end_phase(tasks, state, task)),
        end_phase(tasks, state, task).time == state.time,
        end_phase(tasks, state, task).phase == state.phase.update(
            task,
            (state.phase[task] + 1) as usize,
        ),
        end_phase(tasks, state, task).auto_end == state.auto_end.update(task, None),
{
    let ended = end_phase(tasks, state, task);
    let phase = state.phase[task] as int;
    assert(state.phase[task] <= tasks[task].phases.len() <= usize::MAX);
    assert(state_fits(tasks, ended)) by {
        assert forall|i: int| 0 <= i < tasks.len() implies #[trigger] ended.phase[i]
            <= tasks[i].phases.len() <= usize::MAX by {
            assert(state.phase[i] <= tasks[i].phases.len());
            assert(tasks[i].phases.len() <= usize::MAX);
        }
        assert forall|i: int|
            0 <= i < tasks.len() && #[trigger] ended.auto_end[i] is Some implies ended.phase[i]
            < tasks[i].phases.len() by {
            assert(state.auto_end[i] is Some);
        }
    }
    assert forall|i: int| 0 <= i < tasks.len() implies (#[trigger] ended.completion[i] is Some
        <==> ended.phase[i] == tasks[i].phases.len()) by {
        assert(state.completion[i] is Some <==> state.phase[i] == tasks[i].phases.len());
    }
    assert forall|i: int|
        0 <= i < tasks.len() && #[trigger] ended.completion[i] is Some implies ended.completion[i]->0
        <= plan_completion(tasks, plan, i) by {
        if i != task {
            assert(state.completion[i] is Some);
        } else {
            assert(state.completion[task] is None);
        }
    }
    assert forall|i: int| 0 <= i < tasks.len() && #[trigger] ended.auto_end[i] is Some implies {
        &&& tasks[i].phases[ended.phase[i] as int].kind == PhaseKind::Auto
        &&& ended.time <= ended.auto_end[i]->0
        &&& ended.auto_end[i]->0 <= plan_end(tasks, plan, i, ended.phase[i] as int)
    } by {
        assert(state.auto_end[i] is Some);
    }
    assert forall|i: int|
        0 <= i < tasks.len() && #[trigger] ready(
            tasks,
            ended,
            i,
            PhaseKind::Auto,
        ) implies ended.time <= plan[i][ended.phase[i] as int] by {
        if i == task {
            assert(plan[task][phase + 1] >= plan_end(tasks, plan, task, phase));
        } else if ready(tasks, state, i, PhaseKind::Auto) {
        } else {
            assert(!can_start(tasks, state, i));
            let j = choose|j: int|
                0 <= j < tasks[i].dependencies.len()
                    && !(state.completion[#[trigger] tasks[i].dependencies[j] as int] is Some);
            let needed = tasks[i].dependencies[j] as int;
            assert(ended.completion[needed] is Some);
            assert(needed == task);
            ends_by_completion(tasks, plan, task, phase);
        }
    }
}

/// Ending the automatic phases that end now keeps up with the plan.
proof fn end_autos_keeps_up(tasks: Seq<TaskModel>, plan: Plan, state: StateModel, from: int)
    requires
        is_plan(tasks, plan),
        dependencies_in_range(tasks),
        keeps_up(tasks, plan, state),
        autos_in_time(tasks, plan, state),
        0 <= from,
    ensures
        ({
            let ended = end_autos(tasks, state, from);
            &&& keeps_up(tasks, plan, ended)
            &&& autos_in_time(tasks, plan, ended)
            &&& ended.time == state.time
            &&& forall|task: int|
                0 <= task < tasks.len() ==> #[trigger] ended.phase[task] >= state.phase[task]
            &&& forall|task: int|
                0 <= task < tasks.len() && state.auto_end[task] is None
                    ==> #[trigger] ended.phase[task] == state.phase[task]
        }),
    decreases tasks.len() - from,
{
    if from < tasks.len() {
        if state.auto_end[from] == Some(state.time) {
            assert(state.auto_end[from] is Some);
            assert(state.phase[from] <= tasks[from].phases.len() <= usize::MAX);
            phase_end_keeps_up(tasks, plan, state, from);
            let ended = end_phase(tasks, state, from);
            end_autos_keeps_up(tasks, plan, ended, from + 1);
            assert forall|task: int| 0 <= task < tasks.len() implies #[trigger] end_autos(
                tasks,
                state,
                from,
            ).phase[task] >= state.phase[task] by {
                assert(ended.phase[task] >= state.phase[task]);
            }
            assert forall|task: int|
                0 <= task < tasks.len() && state.auto_end[task] is None implies #[trigger] end_autos(
                tasks,
                state,
                from,
            ).phase[task] == state.phase[task] by {
                assert(ended.auto_end[task] is None);
                assert(ended.phase[task] == state.phase[task]);
            }
        } else {
            end_autos_keeps_up(tasks, plan, state, from + 1);
        }
    }
}

/// A settled state keeps up with the plan when time passes in which nothing ends.
proof fn time_passes_keeps_up(tasks: Seq<TaskModel>, plan: Plan, state: StateModel, time: u64)
    requires
        keeps_up(tasks, plan, state),
        is_settled(tasks, state),
        forall|task: int|
            0 <= task < tasks.len() && #[trigger] state.auto_end[task] is Some ==> time
                <= state.auto_end[task]->0,
    ensures
        keeps_up(tasks, plan, StateModel { time, ..state }),
        is_settled(tasks, StateModel { time, ..state }),
{
    let there = StateModel { time, ..state };
    assert(state_fits(tasks, there));
    assert forall|task: int| 0 <= task < tasks.len() implies !#[trigger] ready(
        tasks,
        there,
        task,
        PhaseKind::Auto,
    ) by {
        assert(!ready(tasks, state, task, PhaseKind::Auto));
        assert(can_start(tasks, there, task) == can_start(tasks, state, task));
    }
    assert forall|task: int| 0 <= task < tasks.len() implies (#[trigger] there.completion[task] is Some
        <==> there.phase[task] == tasks[task].phases.len()) by {
        assert(state.completion[task] is Some <==> state.phase[task] == tasks[task].phases.len());
    }
    assert forall|task: int|
        0 <= task < tasks.len() && #[trigger] there.completion[task] is Some implies there.completion[task]->0
        <= plan_completion(tasks, plan, task) by {
        assert(state.completion[task] is Some);
    }
    assert forall|task: int|
        0 <= task < tasks.len() && #[trigger] there.auto_end[task] is Some implies {
        &&& tasks[task].phases[there.phase[task] as int].kind == PhaseKind::Auto
        &&& there.time <= there.auto_end[task]->0
        &&& there.auto_end[task]->0 <= plan_end(tasks, plan, task, there.phase[task] as int)
    } by {
        assert(state.auto_end[task] is Some);
    }
}

/// Waiting for the next automatic phase to end keeps up with the plan.
proof fn advance_keeps_up(tasks: Seq<TaskModel>, plan: Plan, state: StateModel, next: u64)
    requires
        is_plan(tasks, plan),
        dependencies_in_range(tasks),
        keeps_up(tasks, plan, state),
        is_settled(tasks, state),
        earliest_end(state.auto_end) == Some(next),
    ensures
        advance(tasks, state, next) matches Some(later) ==> {
            &&& keeps_up(tasks, plan, later)
            &&& is_settled(tasks, later)
            &&& later.time == next
            &&& forall|task: int|
                0 <= task < tasks.len() ==> #[trigger] later.phase[task] >= state.phase[task]
            &&& forall|task: int|
                0 <= task < tasks.len() && state.auto_end[task] is None
                    ==> #[trigger] later.phase[task] == state.phase[task]
        },
{
    earliest_end_is_least(state.auto_end);
    time_passes_keeps_up(tasks, plan, state, next);
    let there = StateModel { time: next, ..state };
    end_autos_keeps_up(tasks, plan, there, 0);
    start_autos_keeps_up(tasks, plan, end_autos(tasks, there, 0), 0);
}

/// Automatic phases that run while a manual phase is done keep up with the plan.
proof fn advance_until_keeps_up(
    tasks: Seq<TaskModel>,
    plan: Plan,
    state: StateModel,
    end: u64,
    task: int,
)
    requires
        is_plan(tasks, plan),
        dependencies_in_range(tasks),
        keeps_up(tasks, plan, state),
        is_settled(tasks, state),
        is_manual(tasks, task, state.phase[task] as int),
    ensures
        advance_until(tasks, state, end) matches Some(later) ==> {
            &&& keeps_up(tasks, plan, later)
            &&& is_settled(tasks, later)
            &&& later.time == end
            &&& later.phase[task] == state.phase[task]
            &&& forall|other: int|
                0 <= other < tasks.len() ==> #[trigger] later.phase[other] >= state.phase[other]
        },
    decreases work_left(tasks, state),
{
    earliest_end_is_least(state.auto_end);
    phases_left_bounds(tasks, state.phase, tasks.len() as int);
    assert(state.auto_end[task] is None) by {
        if state.auto_end[task] is Some {
            assert(tasks[task].phases[state.phase[task] as int].kind == PhaseKind::Auto);
        }
    }
    match earliest_end(state.auto_end) {
        Some(next) if next <= end => {
            advance_keeps(tasks, state, next);
            advance_keeps_up(tasks, plan, state, next);
            if let Some(later) = advance(tasks, state, next) {
                assert(later.phase[task] == state.phase[task]);
                advance_until_keeps_up(tasks, plan, later, end, task);
                if let Some(last) = advance_until(tasks, later, end) {
                    assert forall|other: int| 0 <= other < tasks.len() implies
                    #[trigger] last.phase[other] >= state.phase[other] by {
                        assert(later.phase[other] >= state.phase[other]);
                    }
                }
            }
        },
        _ => {
            time_passes_keeps_up(tasks, plan, state, end);
        },
    }
}

/// Whether a manual phase ends in the plan before all others begin that are still to be done.
spec fn is_next(
    tasks: Seq<TaskModel>,
    plan: Plan,
    state: StateModel,
    task: int,
    phase: int,
) -> bool {
    &&& is_ahead(tasks, state, task, phase)
    &&& forall|other: int, other_phase: int| #[trigger]
        is_ahead(tasks, state, other, other_phase) && (other != task || other_phase != phase)
            ==> plan_end(tasks, plan, task, phase) <= plan[other][other_phase]
}

/// Doing the manual phase that is next in the plan keeps up with the plan.
proof fn do_manual_keeps_up(tasks: Seq<TaskModel>, plan: Plan, state: StateModel, task: int)
    requires
        is_plan(tasks, plan),
        dependencies_in_range(tasks),
        keeps_up(tasks, plan, state),
        is_settled(tasks, state),
        manuals_begin_from(tasks, plan, state, state.time as int),
        0 <= task < tasks.len(),
        ready(tasks, state, task, PhaseKind::Manual),
        is_next(tasks, plan, state, task, state.phase[task] as int),
    ensures
        do_manual(tasks, state, task) matches Some(later) ==> {
            &&& keeps_up(tasks, plan, later)
            &&& is_settled(tasks, later)
            &&& manuals_begin_from(tasks, plan, later, later.time as int)
        },
{
    let phase = state.phase[task] as int;
    if state.time + current_duration(tasks, state, task) <= u64::MAX {
        let entry = entry_now(tasks, state, task, PhaseKind::Manual);
        let begun = StateModel { entries: state.entries.push(entry), ..state };
        let end = entry.end_minutes;
        assert(keeps_up(tasks, plan, begun)) by {
            assert(state_fits(tasks, begun));
        }
        assert(is_settled(tasks, begun)) by {
            assert forall|other: int| 0 <= other < tasks.len() implies !#[trigger] ready(
                tasks,
                begun,
                other,
                PhaseKind::Auto,
            ) by {
                assert(!ready(tasks, state, other, PhaseKind::Auto));
                assert(can_start(tasks, begun, other) == can_start(tasks, state, other));
            }
        }
        advance_until_keeps_up(tasks, plan, begun, end, task);
        if let Some(later) = advance_until(tasks, begun, end) {
            assert(is_ahead(tasks, state, task, phase));
            assert(end <= plan_end(tasks, plan, task, phase));
            assert(later.auto_end[task] is None) by {
                if later.auto_end[task] is Some {
                    assert(tasks[task].phases[later.phase[task] as int].kind == PhaseKind::Auto);
                }
            }
            phase_end_keeps_up(tasks, plan, later, task);
            assert(later.auto_end.update(task, None) == later.auto_end);
            assert(end_manual(tasks, later, task) == end_phase(tasks, later, task));
            let ended = end_manual(tasks, later, task);
            start_autos_keeps_up(tasks, plan, ended, 0);
            if let Some(last) = start_autos(tasks, ended, 0) {
                assert(manuals_begin_from(tasks, plan, last, end as int)) by {
                    assert forall|other: int, other_phase: int| #[trigger]
                        is_ahead(tasks, last, other, other_phase) implies end
                        <= plan[other][other_phase] by {
                        assert(later.phase[other] >= state.phase[other]);
                        assert(later.phase[task] <= tasks[task].phases.len() <= usize::MAX);
                        assert(last.phase[other] >= later.phase[other]);
                        assert(is_ahead(tasks, state, other, other_phase));
                        assert(other != task || other_phase != phase);
                    }
                }
            }
        }
    }
}

/// Where a task is not completed that the plan completes by a time, and no manual phase begins in
/// the plan before that time, an automatic phase runs that will have ended by then.
proof fn something_runs(
    tasks: Seq<TaskModel>,
    plan: Plan,
    state: StateModel,
    task: int,
    time: int,
) -> (running: int)
    requires
        is_plan(tasks, plan),
        dependencies_in_range(tasks),
        phases_take_time(tasks),
        keeps_up(tasks, plan, state),
        is_settled(tasks, state),
        manuals_begin_from(tasks, plan, state, time),
        0 <= task < tasks.len(),
        state.completion[task] is None,
        plan_completion(tasks, plan, task) <= time,
    ensures
        0 <= running < tasks.len(),
        state.auto_end[running] is Some,
        state.auto_end[running]->0 <= time,
    decreases plan_completion(tasks, plan, task),
{
    let phase = state.phase[task] as int;
    assert(state.phase[task] <= tasks[task].phases.len());
    assert(phase < tasks[task].phases.len());
    ends_by_completion(tasks, plan, task, phase);
    assert(tasks[task].phases[phase].duration_minutes > 0);
    assert(tasks[task].phases[phase].kind == PhaseKind::Auto) by {
        if tasks[task].phases[phase].kind == PhaseKind::Manual {
            assert(is_ahead(tasks, state, task, phase));
        }
    }
    if state.auto_end[task] is Some {
        task
    } else {
        assert(!ready(tasks, state, task, PhaseKind::Auto));
        assert(!can_start(tasks, state, task));
        let j = choose|j: int|
            0 <= j < tasks[task].dependencies.len()
                && !(state.completion[#[trigger] tasks[task].dependencies[j] as int] is Some);
        let needed = tasks[task].dependencies[j] as int;
        assert(phase == 0);
        begins_after_start(tasks, plan, needed, tasks[needed].phases.len() - 1);
        something_runs(tasks, plan, state, needed, time)
    }
}

/// Where the manual phase that is next in the plan cannot begin, an automatic phase runs that
/// will have ended when it begins in the plan.
proof fn something_runs_before(
    tasks: Seq<TaskModel>,
    plan: Plan,
    state: StateModel,
    task: int,
    phase: int,
) -> (running: int)
    requires
        is_plan(tasks, plan),
        dependencies_in_range(tasks),
        phases_take_time(tasks),
        keeps_up(tasks, plan, state),
        is_settled(tasks, state),
        is_ahead(tasks, state, task, phase),
        manuals_begin_from(tasks, plan, state, plan[task][phase]),
        !(phase == state.phase[task] && ready(tasks, state, task, PhaseKind::Manual)),
    ensures
        0 <= running < tasks.len(),
        state.auto_end[running] is Some,
        state.auto_end[running]->0 <= plan[task][phase],
{
    let time = plan[task][phase];
    let current = state.phase[task] as int;
    assert(tasks[task].phases[current].duration_minutes > 0);
    if current < phase {
        phases_in_order(tasks, plan, task, current, phase);
        assert(tasks[task].phases[current].kind == PhaseKind::Auto) by {
            if tasks[task].phases[current].kind == PhaseKind::Manual {
                assert(is_ahead(tasks, state, task, current));
            }
        }
    } else {
        assert(state.auto_end[task] is None) by {
            if state.auto_end[task] is Some {
                assert(tasks[task].phases[state.phase[task] as int].kind == PhaseKind::Auto);
            }
        }
    }
    if state.auto_end[task] is Some {
        task
    } else {
        assert(!ready(tasks, state, task, PhaseKind::Auto));
        assert(!can_start(tasks, state, task));
        let j = choose|j: int|
            0 <= j < tasks[task].dependencies.len()
                && !(state.completion[#[trigger] tasks[task].dependencies[j] as int] is Some);
        let needed = tasks[task].dependencies[j] as int;
        assert(plan_completion(tasks, plan, needed) <= plan[task][0]);
        something_runs(tasks, plan, state, needed, time)
    }
}

/// Of the manual phases that are still to be done, one is next in the plan.
proof fn one_is_next(
    tasks: Seq<TaskModel>,
    plan: Plan,
    state: StateModel,
    task: int,
    phase: int,
) -> (next: (int, int))
    requires
        is_plan(tasks, plan),
        phases_take_time(tasks),
        is_ahead(tasks, state, task, phase),
        state_fits(tasks, state),
    ensures
        is_next(tasks, plan, state, next.0, next.1),
        manuals_begin_from(tasks, plan, state, plan[next.0][next.1]),
    decreases plan[task][phase],
{
    begins_after_start(tasks, plan, task, phase);
    if exists|other: int, other_phase: int| #[trigger]
        is_ahead(tasks, state, other, other_phase) && plan[other][other_phase]
            < plan[task][phase] {
        let (other, other_phase) = choose|other: int, other_phase: int| #[trigger]
            is_ahead(tasks, state, other, other_phase) && plan[other][other_phase]
                < plan[task][phase];
        begins_after_start(tasks, plan, other, other_phase);
        one_is_next(tasks, plan, state, other, other_phase)
    } else {
        assert forall|other: int, other_phase: int| #[trigger]
            is_ahead(tasks, state, other, other_phase) && (other != task || other_phase
                != phase) implies plan_end(tasks, plan, task, phase)
            <= plan[other][other_phase] by {
            assert(is_manual(tasks, task, phase) && is_manual(tasks, other, other_phase));
            assert(are_apart(tasks, plan, task, phase, other, other_phase));
            assert(tasks[other].phases[other_phase].duration_minutes > 0);
        }
        (task, phase)
    }
}

/// The weight of a task is positive.
proof fn weight_is_positive(priority: int)
    ensures
        weight(priority) > 0,
    decreases priority,
{
    if priority > 1 {
        weight_is_positive(priority - 1);
    }
}

/// Earlier completion times have no larger weighted sum.
proof fn earlier_sum_is_smaller(
    tasks: Seq<TaskModel>,
    completion: Seq<u64>,
    times: Seq<int>,
    count: int,
)
    requires
        0 <= count <= tasks.len(),
        completion.len() == tasks.len(),
        times.len() == tasks.len(),
        forall|task: int| 0 <= task < tasks.len() ==> #[trigger] completion[task] <= times[task],
    ensures
        weighted_sum(tasks, completion, count) <= weighted_times(tasks, times, count),
    decreases count,
{
    if count > 0 {
        earlier_sum_is_smaller(tasks, completion, times, count - 1);
        let factor = weight(tasks[count - 1].priority as int);
        weight_is_positive(tasks[count - 1].priority as int);
        let early = completion[count - 1] as int;
        let late = times[count - 1];
        assert(early <= late);
        assert(factor * early <= factor * late) by (nonlinear_arith)
            requires
                factor > 0,
                early <= late,
        ;
    }
}

/// Earlier completion times have no larger makespan.
proof fn earlier_latest_is_smaller(completion: Seq<u64>, times: Seq<int>)
    requires
        completion.len() == times.len(),
        forall|task: int| 0 <= task < times.len() ==> #[trigger] completion[task] <= times[task],
    ensures
        latest(completion) <= latest_time(times),
    decreases times.len(),
{
    if times.len() > 0 {
        let rest = completion.drop_last();
        assert forall|task: int| 0 <= task < times.drop_last().len() implies #[trigger] rest[task]
            <= times.drop_last()[task] by {
            assert(completion[task] <= times[task]);
        }
        earlier_latest_is_smaller(rest, times.drop_last());
        assert(completion[times.len() - 1] <= times[times.len() - 1]);
    }
}

/// Whether a schedule has no larger weighted sum and no larger makespan than a plan.
spec fn is_no_later(tasks: Seq<TaskModel>, schedule: ScheduleModel, plan: Plan) -> bool {
    let times = plan_completions(tasks, plan);
    &&& schedule.weighted <= weighted_times(tasks, times, tasks.len() as int)
    &&& schedule.makespan <= latest_time(times)
}

/// A schedule that keeps up with a plan to the end is no later than it.
proof fn kept_up_is_no_later(tasks: Seq<TaskModel>, plan: Plan, state: StateModel)
    requires
        is_plan(tasks, plan),
        keeps_up(tasks, plan, state),
        all_completed(state),
    ensures
        is_no_later(tasks, schedule_of(tasks, state), plan),
{
    let completion = schedule_of(tasks, state).completion;
    let times = plan_completions(tasks, plan);
    assert forall|task: int| 0 <= task < tasks.len() implies #[trigger] completion[task]
        <= times[task] by {
        assert(state.completion[task] is Some);
    }
    earlier_sum_is_smaller(tasks, completion, times, tasks.len() as int);
    earlier_latest_is_smaller(completion, times);
}

/// The search finds a schedule that is no later than a plan with which it has kept up so far.
proof fn plan_is_followed(
    tasks: Seq<TaskModel>,
    plan: Plan,
    state: StateModel,
    visited: nat,
) -> (at: int)
    requires
        is_plan(tasks, plan),
        dependencies_in_range(tasks),
        phases_take_time(tasks),
        keeps_up(tasks, plan, state),
        is_settled(tasks, state),
        manuals_begin_from(tasks, plan, state, state.time as int),
        explore(tasks, state, visited).failure is None,
    ensures
        0 <= at < explore(tasks, state, visited).found.len(),
        is_no_later(tasks, explore(tasks, state, visited).found[at], plan),
    decreases work_left(tasks, state), 1int,
{
    let explored = explore(tasks, state, visited);
    phases_left_bounds(tasks, state.phase, tasks.len() as int);
    if all_completed(state) {
        kept_up_is_no_later(tasks, plan, state);
        0
    } else {
        let done = explore_manuals(tasks, state, 0, visited + 1);
        if exists|task: int, phase: int| is_ahead(tasks, state, task, phase) {
            let (some, some_phase) = choose|task: int, phase: int|
                is_ahead(tasks, state, task, phase);
            let (task, phase) = one_is_next(tasks, plan, state, some, some_phase);
            if phase == state.phase[task] && ready(tasks, state, task, PhaseKind::Manual) {
                do_manual_keeps(tasks, state, task);
                do_manual_keeps_up(tasks, plan, state, task);
                let start = task_is_explored(tasks, state, 0, visited + 1, task);
                let later = do_manual(tasks, state, task)->0;
                let k = plan_is_followed(tasks, plan, later, start);
                let part = explore(tasks, later, start).found;
                assert(done.found.contains(part[k]));
                let m = choose|m: int| 0 <= m < done.found.len() && done.found[m] == part[k];
                assert(explored.found[m] == part[k]);
                m
            } else {
                let running = something_runs_before(tasks, plan, state, task, phase);
                earliest_end_is_least(state.auto_end);
                let next = earliest_end(state.auto_end)->0;
                assert(next <= state.auto_end[running]->0);
                wait_is_followed(tasks, plan, state, visited)
            }
        } else {
            assert(!some_manual_ready(tasks, state)) by {
                if some_manual_ready(tasks, state) {
                    let task = choose|task: int|
                        0 <= task < tasks.len() && #[trigger] ready(
                            tasks,
                            state,
                            task,
                            PhaseKind::Manual,
                        );
                    assert(is_ahead(tasks, state, task, state.phase[task] as int));
                }
            }
            wait_is_followed(tasks, plan, state, visited)
        }
    }
}

/// The search finds such a schedule after waiting for the next automatic phase to end.
proof fn wait_is_followed(
    tasks: Seq<TaskModel>,
    plan: Plan,
    state: StateModel,
    visited: nat,
) -> (at: int)
    requires
        is_plan(tasks, plan),
        dependencies_in_range(tasks),
        phases_take_time(tasks),
        keeps_up(tasks, plan, state),
        is_settled(tasks, state),
        !all_completed(state),
        earliest_end(state.auto_end) matches Some(next) && manuals_begin_from(
            tasks,
            plan,
            state,
            next as int,
        ),
        explore(tasks, state, visited).failure is None,
    ensures
        0 <= at < explore(tasks, state, visited).found.len(),
        is_no_later(tasks, explore(tasks, state, visited).found[at], plan),
    decreases work_left(tasks, state), 0int,
{
    let next = earliest_end(state.auto_end)->0;
    let explored = explore(tasks, state, visited);
    let done = explore_manuals(tasks, state, 0, visited + 1);
    advance_keeps(tasks, state, next);
    advance_keeps_up(tasks, plan, state, next);
    let later = advance(tasks, state, next)->0;
    assert(manuals_begin_from(tasks, plan, later, next as int)) by {
        assert forall|task: int, phase: int| #[trigger]
            is_ahead(tasks, later, task, phase) implies next <= plan[task][phase] by {
            assert(later.phase[task] >= state.phase[task]);
            assert(is_ahead(tasks, state, task, phase));
        }
    }
    let k = plan_is_followed(tasks, plan, later, done.visited);
    let rest = explore(tasks, later, done.visited).found;
    assert(explored.found == done.found + rest);
    done.found.len() + k
}

/// No plan that carries out the tasks is better than the schedule that the search returns: none
/// has a smaller weighted sum of completion times, and none with the same sum a smaller makespan.
pub proof fn no_plan_is_better(tasks: Seq<TaskModel>, plan: Plan)
    requires
        tasks_fit(tasks),
        phases_take_time(tasks),
        is_plan(tasks, plan),
        start_autos(tasks, initial_state(tasks), 0) matches Some(begun) && explore(
            tasks,
            begun,
            0,
        ).failure is None,
    ensures
        ({
            let begun = start_autos(tasks, initial_state(tasks), 0)->0;
            let best = best_of(None, explore(tasks, begun, 0).found, tasks);
            best matches Some(best) && is_as_good(tasks, best, plan)
        }),
{
    let initial = initial_state(tasks);
    assert(keeps_up(tasks, plan, initial)) by {
        assert(state_fits(tasks, initial));
    }
    assert forall|task: int, phase: int|
        0 <= task < tasks.len() && 0 <= phase < tasks[task].phases.len() implies 0
        <= #[trigger] plan[task][phase] by {
        begins_after_start(tasks, plan, task, phase);
    }
    start_autos_keeps_up(tasks, plan, initial, 0);
    let begun = start_autos(tasks, initial, 0)->0;
    assert(manuals_begin_from(tasks, plan, begun, begun.time as int));
    let found = explore(tasks, begun, 0).found;
    let k = plan_is_followed(tasks, plan, begun, 0);
    kept_is_first_of_the_best(found, tasks);
    let best = best_of(None, found, tasks)->0;
    let at = choose|at: int|
        #[trigger] is_first_of_the_best(found, at, tasks) && found[at] == best;
    assert(is_first_of_the_best(found, at, tasks) && found[at] == best);
    assert(!better(found[k], found[at], tasks));
}

} // verus!
