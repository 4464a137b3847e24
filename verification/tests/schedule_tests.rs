use my_dev_tools::csv_key_diff::{read_csv, CsvData};
use my_dev_tools::schedule_model::{Phase, PhaseKind, Schedule, Task};
use my_dev_tools::schedule_search::{optimize_schedule, schedule_is_better};
use my_dev_tools::task_schedule::{
    parse_phases, parse_tasks, render_gantt_chart_with_width, run, truncate_label,
};

fn task(id: &str, priority: u8, phases: &[Phase], dependencies: &[usize]) -> Task {
    Task {
        id: id.to_string(),
        priority,
        dependencies: dependencies.to_vec(),
        phases: phases.to_vec(),
    }
}

fn phase(kind: PhaseKind, duration_minutes: u64) -> Phase {
    Phase { kind, duration_minutes }
}

fn task_csv(rows: Vec<Vec<&str>>) -> CsvData {
    CsvData {
        path: String::from("tasks.csv"),
        headers: vec![
            String::from("id"),
            String::from("priority"),
            String::from("dependencies"),
            String::from("phases"),
        ],
        rows: rows
            .into_iter()
            .map(|row| row.into_iter().map(str::to_string).collect())
            .collect(),
    }
}

fn assert_schedule_is_valid(tasks: &[Task], schedule: &Schedule) {
    let mut manual_entries = schedule
        .entries
        .iter()
        .filter(|entry| entry.kind == PhaseKind::Manual)
        .collect::<Vec<_>>();
    manual_entries.sort_by_key(|entry| (entry.start_minutes, entry.end_minutes));
    for pair in manual_entries.windows(2) {
        assert!(pair[0].end_minutes <= pair[1].start_minutes);
    }

    for (task_index, task) in tasks.iter().enumerate() {
        let mut entries = schedule
            .entries
            .iter()
            .filter(|entry| entry.task_index == task_index)
            .collect::<Vec<_>>();
        entries.sort_by_key(|entry| entry.phase_index);
        assert_eq!(entries.len(), task.phases.len());

        for (phase_index, (entry, phase)) in entries.iter().zip(&task.phases).enumerate() {
            assert_eq!(entry.phase_index, phase_index);
            assert_eq!(entry.kind, phase.kind);
            assert_eq!(entry.end_minutes - entry.start_minutes, phase.duration_minutes);
            if phase_index == 0 {
                for dependency in &task.dependencies {
                    assert!(schedule.completion_minutes[*dependency] <= entry.start_minutes);
                }
            } else {
                assert!(entries[phase_index - 1].end_minutes <= entry.start_minutes);
                if phase.kind == PhaseKind::Auto {
                    assert_eq!(entries[phase_index - 1].end_minutes, entry.start_minutes);
                }
            }
        }
        assert_eq!(
            schedule.completion_minutes[task_index],
            entries.last().unwrap().end_minutes
        );
    }
}

#[test]
fn parses_tasks_with_dependencies_and_alternating_phases() {
    let csv = task_csv(vec![
        vec!["deploy", "5", "build;test", "manual:10|auto:20|manual:5"],
        vec!["build", "3", "", "manual:15"],
        vec!["test", "4", "", "auto:10"],
    ]);

    let tasks = parse_tasks(&csv).unwrap();

    assert_eq!(tasks[0].id, "build");
    assert_eq!(tasks[1].id, "deploy");
    assert_eq!(tasks[1].dependencies, vec![0, 2]);
    assert_eq!(tasks[1].phases[1].kind, PhaseKind::Auto);
}

#[test]
fn parses_abbreviated_phase_kinds() {
    let phases = parse_phases("m:10|a:20|m:5", 0).unwrap();

    assert_eq!(
        phases
            .iter()
            .map(|phase| (phase.kind, phase.duration_minutes))
            .collect::<Vec<_>>(),
        vec![
            (PhaseKind::Manual, 10),
            (PhaseKind::Auto, 20),
            (PhaseKind::Manual, 5),
        ]
    );
}

#[test]
fn schedules_manual_work_during_automatic_work() {
    let tasks = vec![
        task("background", 1, &[phase(PhaseKind::Manual, 15)], &[]),
        task(
            "important",
            5,
            &[
                phase(PhaseKind::Manual, 10),
                phase(PhaseKind::Auto, 20),
                phase(PhaseKind::Manual, 10),
            ],
            &[],
        ),
    ];

    let schedule = optimize_schedule(&tasks).unwrap();
    let background = schedule
        .entries
        .iter()
        .find(|entry| tasks[entry.task_index].id == "background")
        .unwrap();
    let automatic = schedule
        .entries
        .iter()
        .find(|entry| tasks[entry.task_index].id == "important" && entry.kind == PhaseKind::Auto)
        .unwrap();

    assert_eq!((background.start_minutes, background.end_minutes), (10, 25));
    assert_eq!((automatic.start_minutes, automatic.end_minutes), (10, 30));
    assert_eq!(schedule.completion_minutes, vec![25, 40]);
}

#[test]
fn waits_for_higher_priority_automatic_work() {
    let tasks = vec![
        task("background", 1, &[phase(PhaseKind::Manual, 20)], &[]),
        task(
            "important",
            5,
            &[phase(PhaseKind::Auto, 5), phase(PhaseKind::Manual, 5)],
            &[],
        ),
    ];

    let schedule = optimize_schedule(&tasks).unwrap();
    let important_manual = schedule
        .entries
        .iter()
        .find(|entry| tasks[entry.task_index].id == "important" && entry.kind == PhaseKind::Manual)
        .unwrap();

    assert_eq!(
        (important_manual.start_minutes, important_manual.end_minutes),
        (5, 10)
    );
}

#[test]
fn advances_automatic_dependencies_while_manual_work_is_running() {
    let tasks = vec![
        task("auto_source", 1, &[phase(PhaseKind::Auto, 5)], &[]),
        task("dependent", 1, &[phase(PhaseKind::Manual, 5)], &[0]),
        task("important", 5, &[phase(PhaseKind::Manual, 10)], &[]),
    ];

    let schedule = optimize_schedule(&tasks).unwrap();
    let dependent_manual = schedule
        .entries
        .iter()
        .find(|entry| tasks[entry.task_index].id == "dependent" && entry.kind == PhaseKind::Manual)
        .unwrap();

    assert_eq!(
        (dependent_manual.start_minutes, dependent_manual.end_minutes),
        (10, 15)
    );
}

#[test]
fn starts_dependents_after_simultaneous_automatic_completions() {
    let tasks = vec![
        task("auto_a", 3, &[phase(PhaseKind::Auto, 5)], &[]),
        task("auto_b", 3, &[phase(PhaseKind::Auto, 5)], &[]),
        task(
            "dependent_auto",
            5,
            &[phase(PhaseKind::Auto, 2), phase(PhaseKind::Manual, 1)],
            &[0, 1],
        ),
        task("dependent_manual", 2, &[phase(PhaseKind::Manual, 1)], &[1]),
    ];

    let schedule = optimize_schedule(&tasks).unwrap();
    let dependent_auto = schedule
        .entries
        .iter()
        .find(|entry| {
            tasks[entry.task_index].id == "dependent_auto" && entry.kind == PhaseKind::Auto
        })
        .unwrap();

    assert_eq!(
        (dependent_auto.start_minutes, dependent_auto.end_minutes),
        (5, 7)
    );
    assert_schedule_is_valid(&tasks, &schedule);
}

#[test]
fn writes_schedule_csv() {
    let input = "id,priority,dependencies,phases\nbuild,3,,manual:10\ntest,5,build,auto:5|manual:5\n";
    let csv = read_csv("tasks.csv", "tasks.csv", input.as_bytes().to_vec()).unwrap();

    let csv = run(&csv).unwrap().csv;

    assert!(csv.starts_with("record_type,task_id,priority"));
    assert!(csv.contains("phase,build,3,0,manual,0,10"));
    assert!(csv.contains("phase,test,5,0,auto,10,15"));
    assert!(csv.contains("task_complete,test,5,,,,20"));
}

#[test]
fn renders_manual_and_automatic_phases_in_gantt_chart() {
    let tasks = vec![task(
        "build",
        3,
        &[
            phase(PhaseKind::Manual, 2),
            phase(PhaseKind::Auto, 3),
            phase(PhaseKind::Manual, 1),
        ],
        &[],
    )];
    let schedule = optimize_schedule(&tasks).unwrap();

    let chart = render_gantt_chart_with_width(&tasks, &schedule, 6);

    assert!(chart.contains("gantt chart (# manual, = auto)"));
    assert!(chart.contains("build |##===#| 6 min"));
}

#[test]
fn enforces_dependencies_and_manual_exclusivity_for_complex_schedule() {
    let tasks = vec![
        task(
            "bootstrap",
            3,
            &[phase(PhaseKind::Manual, 2), phase(PhaseKind::Auto, 5)],
            &[],
        ),
        task("docs", 1, &[phase(PhaseKind::Manual, 4)], &[]),
        task(
            "lint",
            2,
            &[phase(PhaseKind::Auto, 3), phase(PhaseKind::Manual, 2)],
            &[],
        ),
        task(
            "build",
            4,
            &[phase(PhaseKind::Manual, 4), phase(PhaseKind::Auto, 4)],
            &[0],
        ),
        task(
            "test",
            5,
            &[phase(PhaseKind::Auto, 2), phase(PhaseKind::Manual, 3)],
            &[3],
        ),
        task("release", 5, &[phase(PhaseKind::Manual, 1)], &[1, 4]),
    ];

    let schedule = optimize_schedule(&tasks).unwrap();

    assert_schedule_is_valid(&tasks, &schedule);
}

#[test]
fn rejects_circular_dependencies() {
    let tasks = vec![
        task("a", 3, &[phase(PhaseKind::Manual, 1)], &[1]),
        task("b", 3, &[phase(PhaseKind::Auto, 1)], &[0]),
    ];

    let error = optimize_schedule(&tasks).unwrap_err();

    assert!(error.contains("cycle"));
}

#[test]
fn rejects_duplicate_dependencies() {
    let csv = task_csv(vec![
        vec!["a", "3", "", "manual:1"],
        vec!["b", "3", "a;a", "manual:1"],
    ]);

    let error = parse_tasks(&csv).unwrap_err();

    assert!(error.contains("more than once"));
}

#[test]
fn rejects_unknown_dependencies() {
    let csv = task_csv(vec![vec!["task", "3", "missing", "manual:1"]]);

    let error = parse_tasks(&csv).unwrap_err();

    assert!(error.contains("unknown task missing"));
}

#[test]
fn rejects_priority_outside_the_supported_range() {
    let csv = task_csv(vec![vec!["task", "6", "", "manual:1"]]);

    let error = parse_tasks(&csv).unwrap_err();

    assert!(error.contains("between 1 and 5"));
}

#[test]
fn rejects_non_alternating_phases() {
    let csv = task_csv(vec![vec!["task", "3", "", "manual:1|manual:1"]]);

    let error = parse_tasks(&csv).unwrap_err();

    assert!(error.contains("must alternate"));
}

#[test]
fn no_other_beginnings_are_better() {
    let tasks = vec![
        task("a", 3, &[phase(PhaseKind::Auto, 1), phase(PhaseKind::Manual, 2)], &[]),
        task("b", 1, &[phase(PhaseKind::Manual, 3)], &[]),
        task("c", 2, &[phase(PhaseKind::Manual, 1)], &[0]),
    ];
    let schedule = optimize_schedule(&tasks).unwrap();

    let apart = |first: u64, length: u64, second: u64, other: u64| {
        first + length <= second || second + other <= first
    };
    let mut best = (u128::MAX, u64::MAX);
    for auto in 0..10_u64 {
        for a in auto + 1..10 {
            for b in 0..10 {
                for c in a + 2..10 {
                    if apart(a, 2, b, 3) && apart(a, 2, c, 1) && apart(b, 3, c, 1) {
                        let weighted = 9 * (a + 2) + (b + 3) + 3 * (c + 1);
                        let makespan = (a + 2).max(b + 3).max(c + 1);
                        best = best.min((u128::from(weighted), makespan));
                    }
                }
            }
        }
    }
    assert_eq!(
        (schedule.weighted_completion_minutes, schedule.makespan_minutes),
        best
    );
}

#[test]
fn important_tasks_are_completed_first() {
    let tasks = vec![
        task("low", 1, &[phase(PhaseKind::Manual, 5)], &[]),
        task("high", 5, &[phase(PhaseKind::Manual, 5)], &[]),
    ];
    let schedule = optimize_schedule(&tasks).unwrap();
    assert_eq!(schedule.completion_minutes, vec![10, 5]);
    assert_eq!(schedule.makespan_minutes, 10);
    assert!(!schedule_is_better(&schedule, &schedule, &tasks));
}

#[test]
fn schedule_that_takes_too_long_is_refused() {
    let tasks = vec![task(
        "long",
        1,
        &[phase(PhaseKind::Auto, u64::MAX), phase(PhaseKind::Manual, 1)],
        &[],
    )];
    assert_eq!(optimize_schedule(&tasks).unwrap_err(), "schedule time overflow");
}

#[test]
fn whole_run_gives_a_table_and_a_chart() {
    let output = run(&task_csv(vec![vec!["build", "3", "", "manual:2|auto:3|manual:1"]])).unwrap();
    assert!(output.csv.contains("phase,build,3,1,auto,2,5"));
    assert!(output.chart.contains("gantt chart (# manual, = auto)"));
}

#[test]
fn labels_are_cut_to_the_width() {
    assert_eq!(truncate_label("build", 5), "build");
    assert_eq!(truncate_label("build", 0), "");
    assert_eq!(truncate_label("build", 4).chars().count(), 4);
}
