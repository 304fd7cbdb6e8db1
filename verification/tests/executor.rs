use just_fancy::executor::collect_output;
use just_fancy::executor::recipe_command;
use just_fancy::executor::Duration;
use just_fancy::executor::Execution;
use just_fancy::executor::Executor;
use just_fancy::executor::ExecutorEvent;
use just_fancy::executor::Launch;
use just_fancy::executor::Step;
use just_fancy::executor::TaskState;
use just_fancy::executor::TaskStatus;
use just_fancy::graph::RecipeGraph;
use just_fancy::justfile::Dependency;
use just_fancy::justfile::JustDump;
use just_fancy::justfile::ModuleMap;
use just_fancy::justfile::Recipe;
use just_fancy::name_map::NameMap;
use just_fancy::output::OutputCollector;

const SECOND: Duration = Duration { nanos: 1_000_000_000 };

fn graph(recipes: &[(&str, &[&str])], target: &str) -> RecipeGraph {
    let mut map = NameMap::new();
    for (name, deps) in recipes {
        map.insert(
            name.to_string(),
            Recipe {
                name: name.to_string(),
                namepath: name.to_string(),
                dependencies: deps
                    .iter()
                    .map(|d| Dependency { recipe: d.to_string(), _arguments: vec![] })
                    .collect(),
                private: false,
                parameters: vec![],
            },
        );
    }
    let dump = JustDump { recipes: map, first: None, modules: ModuleMap::new(), source: None };
    RecipeGraph::build(&dump, target).unwrap()
}

fn diamond() -> RecipeGraph {
    graph(&[("a", &[]), ("b", &["a"]), ("c", &["a"]), ("d", &["b", "c"])], "d")
}

fn started(step: Step) -> Vec<Launch> {
    match step {
        Step::Start(launches) => launches,
        Step::Finish { .. } => panic!("the execution is over"),
    }
}

fn names(launches: &[Launch]) -> Vec<String> {
    let mut names: Vec<String> = launches.iter().map(|l| l.status.recipe.clone()).collect();
    names.sort();
    names
}

fn finished(step: Step) -> (Vec<ExecutorEvent>, bool) {
    match step {
        Step::Finish { events, succeeded } => (events, succeeded),
        Step::Start(_) => panic!("the execution goes on"),
    }
}

fn end(execution: Execution, name: &str, succeeded: bool) -> Execution {
    let (execution, status) = execution.task_ended(name, succeeded, SECOND, SECOND);
    assert_eq!(status.unwrap().recipe, name);
    execution
}

fn skipped(event: &ExecutorEvent) -> (String, String) {
    match event {
        ExecutorEvent::TaskUpdated(TaskStatus {
            recipe,
            state: TaskState::Skipped { failed_dep },
            ..
        }) => (recipe.clone(), failed_dep.clone()),
        _ => panic!("not skipped"),
    }
}

fn counts(event: &ExecutorEvent) -> (usize, usize, Duration) {
    match event {
        ExecutorEvent::AllDone { success, failed, total_duration } => {
            (*success, *failed, *total_duration)
        }
        _ => panic!("not the last event"),
    }
}

#[test]
fn initial_events_report_that_all_wait() {
    let (_, events) = Executor::new(4).execute(&diamond(), "d").unwrap();
    let mut told: Vec<(String, Vec<String>)> = events
        .iter()
        .map(|e| match e {
            ExecutorEvent::TaskUpdated(s) => {
                assert_eq!(s.state, TaskState::Waiting);
                assert_eq!(s.output_preview, "");
                (s.recipe.clone(), s.dependencies.clone())
            }
            _ => panic!("not an update"),
        })
        .collect();
    told.sort();
    let list = |l: &[&str]| l.iter().map(|s| s.to_string()).collect::<Vec<String>>();
    assert_eq!(
        told,
        vec![
            ("a".to_string(), list(&[])),
            ("b".to_string(), list(&["a"])),
            ("c".to_string(), list(&["a"])),
            ("d".to_string(), list(&["c", "b"])),
        ]
    );
}

#[test]
fn independent_recipes_run_together() {
    let executor = Executor::new(8);
    let (execution, _) = executor.execute(&diamond(), "d").unwrap();
    let (execution, step) = execution.advance(SECOND);
    assert_eq!(names(&started(step)), vec!["a"]);
    let (execution, step) = execution.advance(SECOND);
    assert!(started(step).is_empty());
    let execution = end(execution, "a", true);
    let (execution, step) = execution.advance(SECOND);
    assert_eq!(names(&started(step)), vec!["b", "c"]);
    let execution = end(execution, "c", true);
    let (execution, step) = execution.advance(SECOND);
    assert!(started(step).is_empty());
    let execution = end(execution, "b", true);
    let (execution, step) = execution.advance(SECOND);
    assert_eq!(names(&started(step)), vec!["d"]);
    let execution = end(execution, "d", true);
    let (_, step) = execution.advance(Duration { nanos: 77 });
    let (events, succeeded) = finished(step);
    assert!(succeeded);
    assert_eq!(events.len(), 1);
    assert_eq!(counts(&events[0]), (4, 0, Duration { nanos: 77 }));
}

#[test]
fn limit_on_jobs_is_kept() {
    let g = graph(
        &[("a", &[]), ("b", &[]), ("c", &[]), ("all", &["a", "b", "c"])],
        "all",
    );
    let (execution, _) = Executor::new(2).execute(&g, "all").unwrap();
    let (execution, step) = execution.advance(SECOND);
    let first = names(&started(step));
    assert_eq!(first.len(), 2);
    let (execution, step) = execution.advance(SECOND);
    assert!(started(step).is_empty());
    let execution = end(execution, &first[0], true);
    let (execution, step) = execution.advance(SECOND);
    assert_eq!(names(&started(step)).len(), 1);
    let (_, step) = execution.advance(SECOND);
    assert!(started(step).is_empty());
}

#[test]
fn without_jobs_nothing_starts() {
    let (execution, _) = Executor::new(0).execute(&diamond(), "d").unwrap();
    let (execution, step) = execution.advance(SECOND);
    assert!(started(step).is_empty());
    let (_, step) = execution.advance(SECOND);
    assert!(started(step).is_empty());
}

#[test]
fn failure_stops_new_starts_and_skips_the_rest() {
    let g = graph(
        &[("a", &[]), ("b", &[]), ("c", &["a"]), ("x", &["b"]), ("all", &["c", "x"])],
        "all",
    );
    let (execution, _) = Executor::new(8).execute(&g, "all").unwrap();
    let (execution, step) = execution.advance(SECOND);
    assert_eq!(names(&started(step)), vec!["a", "b"]);
    let execution = end(execution, "a", false);
    // b still runs
    let (execution, step) = execution.advance(SECOND);
    assert!(started(step).is_empty());
    let execution = end(execution, "b", true);
    let (_, step) = execution.advance(Duration { nanos: 5 });
    let (events, succeeded) = finished(step);
    assert!(!succeeded);
    assert_eq!(events.len(), 4);
    let mut told: Vec<(String, String)> = events[..3].iter().map(skipped).collect();
    told.sort();
    assert_eq!(
        told,
        vec![
            ("all".to_string(), "a".to_string()),
            ("c".to_string(), "a".to_string()),
            ("x".to_string(), "a".to_string()),
        ]
    );
    assert_eq!(counts(&events[3]), (1, 1, Duration { nanos: 5 }));
}

#[test]
fn skipped_recipe_names_its_own_failed_dependency() {
    let g = graph(&[("a", &[]), ("b", &[]), ("c", &["b"]), ("all", &["a", "c"])], "all");
    let (execution, _) = Executor::new(8).execute(&g, "all").unwrap();
    let (execution, _) = execution.advance(SECOND);
    let execution = end(execution, "a", false);
    let execution = end(execution, "b", false);
    let (_, step) = execution.advance(SECOND);
    let (events, succeeded) = finished(step);
    assert!(!succeeded);
    let mut told: Vec<(String, String)> = events[..2].iter().map(skipped).collect();
    told.sort();
    assert_eq!(
        told,
        vec![("all".to_string(), "a".to_string()), ("c".to_string(), "b".to_string())]
    );
    assert_eq!(counts(&events[2]), (0, 2, SECOND));
}

#[test]
fn failure_of_the_target_is_a_failure() {
    let (execution, _) = Executor::new(1).execute(&graph(&[("a", &[])], "a"), "a").unwrap();
    let (execution, _) = execution.advance(SECOND);
    let execution = end(execution, "a", false);
    let (execution, step) = execution.advance(SECOND);
    let (events, succeeded) = finished(step);
    assert!(!succeeded);
    assert_eq!(events.len(), 1);
    assert_eq!(counts(&events[0]), (0, 1, SECOND));
    let (_, step) = execution.advance(SECOND);
    assert!(!finished(step).1);
}

#[test]
fn arguments_go_to_the_target_only() {
    let g = graph(&[("a", &[]), ("b", &["a"])], "b");
    let executor = Executor::new(1)
        .justfile(Some("dir/justfile".to_string()))
        .args(vec!["x".to_string(), "y".to_string()]);
    let (execution, _) = executor.execute(&g, "b").unwrap();
    let (execution, step) = execution.advance(SECOND);
    let launches = started(step);
    assert_eq!(launches[0].command, vec!["--justfile", "dir/justfile", "--no-deps", "a"]);
    assert_eq!(launches[0].working_dir, None);
    assert_eq!(launches[0].status.state, TaskState::Running);
    assert!(launches[0].status.dependencies.is_empty());
    let execution = end(execution, "a", true);
    let (_, step) = execution.advance(SECOND);
    let launches = started(step);
    assert_eq!(
        launches[0].command,
        vec!["--justfile", "dir/justfile", "--no-deps", "b", "x", "y"]
    );
    assert_eq!(launches[0].status.dependencies, vec!["a"]);
}

#[test]
fn command_names_the_justfile_where_there_is_one() {
    assert_eq!(recipe_command(&None, "r", &Vec::new()), vec!["--no-deps", "r"]);
    assert_eq!(
        recipe_command(&Some("f".to_string()), "r", &vec!["1".to_string()]),
        vec!["--justfile", "f", "--no-deps", "r", "1"]
    );
}

fn ended(deps: bool, succeeded: bool, duration: u128, total: u128) -> TaskState {
    let g = graph(&[("a", &[]), ("b", &["a"])], "b");
    let (execution, _) = Executor::new(1).execute(&g, "b").unwrap();
    let (execution, _) = execution.advance(SECOND);
    let name = if deps { "b" } else { "a" };
    let execution = if deps {
        let execution = end(execution, "a", true);
        execution.advance(SECOND).0
    } else {
        execution
    };
    let (_, status) = execution.task_ended(
        name,
        succeeded,
        Duration { nanos: duration },
        Duration { nanos: total },
    );
    status.unwrap().state
}

#[test]
fn total_time_is_told_where_it_differs() {
    let tenth: u128 = 100_000_000;
    let state = |duration: u128, total: Option<u128>| TaskState::Completed {
        duration: Duration { nanos: duration },
        total_duration: total.map(|nanos| Duration { nanos }),
    };
    assert_eq!(ended(true, true, 7, 7 + tenth), state(7, None));
    assert_eq!(ended(true, true, 7, 8 + tenth), state(7, Some(8 + tenth)));
    assert_eq!(ended(false, true, 7, 8 + tenth), state(7, None));
    assert_eq!(ended(false, true, 7, 0), state(7, None));
    assert_eq!(
        ended(true, false, 7, 8 + tenth),
        TaskState::Failed { duration: Duration { nanos: 7 } }
    );
}

#[test]
fn end_of_a_recipe_that_does_not_run_is_not_noted() {
    let (execution, _) = Executor::new(1).execute(&diamond(), "d").unwrap();
    let (execution, status) = execution.task_ended("a", true, SECOND, SECOND);
    assert!(status.is_none());
    let (execution, status) = execution.task_ended("unknown", true, SECOND, SECOND);
    assert!(status.is_none());
    let (execution, step) = execution.advance(SECOND);
    assert_eq!(names(&started(step)), vec!["a"]);
    let execution = end(execution, "a", true);
    let (_, status) = execution.task_ended("a", false, SECOND, SECOND);
    assert!(status.is_none());
}

#[test]
fn every_run_ends_and_respects_dependencies() {
    let recipes: &[(&str, &[&str])] = &[
        ("a", &[]),
        ("b", &["a"]),
        ("c", &["a"]),
        ("d", &["b"]),
        ("e", &["b", "c"]),
        ("f", &[]),
        ("g", &["d", "e", "f"]),
    ];
    let g = graph(recipes, "g");
    for jobs in 1..5 {
        let mut done: Vec<String> = Vec::new();
        let mut running: Vec<String> = Vec::new();
        let (mut execution, _) = Executor::new(jobs).execute(&g, "g").unwrap();
        loop {
            let (next, step) = execution.advance(SECOND);
            execution = next;
            match step {
                Step::Start(launches) => {
                    for l in &launches {
                        let name = l.status.recipe.clone();
                        assert!(!done.contains(&name));
                        assert!(!running.contains(&name));
                        for d in g.dependencies_of(&name) {
                            assert!(done.contains(&d));
                        }
                        running.push(name);
                    }
                    assert!(running.len() <= jobs);
                    assert!(!running.is_empty());
                    let name = running.remove(0);
                    execution = end(execution, &name, true);
                    done.push(name);
                }
                Step::Finish { events, succeeded } => {
                    assert!(succeeded);
                    assert_eq!(counts(&events[0]), (7, 0, SECOND));
                    break;
                }
            }
        }
        assert_eq!(done.len(), 7);
    }
}

#[test]
fn output_is_collected_and_reported() {
    let mut collector = OutputCollector::new("build");
    assert!(collect_output(&mut collector, b"  \n").is_none());
    match collect_output(&mut collector, "\u{1b}[1mCompiling\u{1b}[0m x\n".as_bytes()) {
        Some(ExecutorEvent::TaskOutput { recipe, preview }) => {
            assert_eq!(recipe, "build");
            assert_eq!(preview, "Compiling x");
        }
        _ => panic!("no output"),
    }
    match collect_output(&mut collector, b"\n") {
        Some(ExecutorEvent::TaskOutput { preview, .. }) => assert_eq!(preview, "Compiling x"),
        _ => panic!("no output"),
    }
    assert_eq!(*collector.log(), "  \n\u{1b}[1mCompiling\u{1b}[0m x\n\n".as_bytes());
}
