use just_fancy::executor::Duration;
use just_fancy::executor::ExecutorEvent;
use just_fancy::executor::TaskState;
use just_fancy::executor::TaskStatus;
use just_fancy::ui::message;
use just_fancy::ui::template;
use just_fancy::ui::LineUpdate;
use just_fancy::ui::Part;
use just_fancy::ui::Reaction;
use just_fancy::ui::Tick;
use just_fancy::ui::UI;

fn seconds(n: u128) -> Duration {
    Duration { nanos: n * 1_000_000_000 }
}

fn render(parts: &[Part]) -> String {
    parts
        .iter()
        .map(|p| match p {
            Part::Text(text) => text.clone(),
            Part::Seconds(d) => format!("{:.1}", d.nanos as f64 / 1e9),
        })
        .collect()
}

fn status(state: TaskState, preview: &str, deps: &[&str]) -> TaskStatus {
    TaskStatus {
        recipe: "core::test".to_string(),
        state,
        output_preview: preview.to_string(),
        dependencies: deps.iter().map(|d| d.to_string()).collect(),
    }
}

#[test]
fn messages_tell_the_state() {
    let shown = |state: TaskState, preview: &str, deps: &[&str]| {
        render(&message(&status(state, preview, deps)))
    };
    assert_eq!(shown(TaskState::Waiting, "", &[]), "waiting");
    assert_eq!(shown(TaskState::Waiting, "", &["a", "b"]), "waiting (depends on: a, b)");
    assert_eq!(shown(TaskState::Running, "", &["a"]), "running...");
    assert_eq!(shown(TaskState::Running, "out", &[]), "running...  out");
    assert_eq!(
        shown(TaskState::Completed { duration: seconds(2), total_duration: None }, "", &[]),
        "completed in 2.0s"
    );
    assert_eq!(
        shown(
            TaskState::Completed { duration: seconds(2), total_duration: Some(seconds(13)) },
            "",
            &["a"]
        ),
        "completed in 2.0s (13.0s total)"
    );
    assert_eq!(
        shown(TaskState::Failed { duration: seconds(1) }, "", &[]),
        "FAILED in 1.0s (see .just-fancy-logs/core::test.log)"
    );
    assert_eq!(
        shown(TaskState::Skipped { failed_dep: "x".to_string() }, "", &[]),
        "skipped (x failed)"
    );
}

#[test]
fn templates_follow_the_state() {
    assert_eq!(template(&TaskState::Waiting, 15), "{prefix:<15}  ◦  {msg}");
    assert_eq!(template(&TaskState::Running, 20), "{prefix:<20}  {spinner:.cyan}  {msg}");
    assert_eq!(
        template(&TaskState::Completed { duration: seconds(0), total_duration: None }, 7),
        "{prefix:<7}  ✓  {msg:.green}"
    );
    assert_eq!(
        template(&TaskState::Failed { duration: seconds(0) }, 123),
        "{prefix:<123}  ✗  {msg:.red}"
    );
    assert_eq!(
        template(&TaskState::Skipped { failed_dep: String::new() }, 0),
        "{prefix:<0}  ⊘  {msg:.yellow}"
    );
}

fn width_of(names: &[String]) -> String {
    UI::new(names).first_update().template.unwrap()
}

#[test]
fn column_is_as_wide_as_the_longest_name() {
    assert_eq!(width_of(&[]), "{prefix:<20}  ◦  {msg}");
    assert_eq!(width_of(&["ab".to_string()]), "{prefix:<15}  ◦  {msg}");
    assert_eq!(width_of(&["a".repeat(15), "b".to_string()]), "{prefix:<15}  ◦  {msg}");
    assert_eq!(width_of(&["a".to_string(), "b".repeat(33)]), "{prefix:<33}  ◦  {msg}");
    assert_eq!(width_of(&["é".repeat(9)]), "{prefix:<18}  ◦  {msg}");
    let first = UI::new(&["a".to_string()]).first_update();
    assert_eq!(render(&first.message), "waiting");
    assert_eq!(first.tick, Tick::Keep);
}

fn drawn(r: Reaction) -> (usize, LineUpdate) {
    match r {
        Reaction::Draw { line, update } => (line, update),
        _ => panic!("nothing drawn"),
    }
}

#[test]
fn events_change_the_line_of_their_recipe() {
    let mut ui = UI::new(&["a".to_string(), "core::test".to_string(), "b".to_string()]);

    let event = ExecutorEvent::TaskUpdated(status(TaskState::Running, "", &[]));
    let (line, update) = drawn(ui.react(&event));
    assert_eq!(line, 1);
    assert_eq!(update.tick, Tick::Start);
    assert_eq!(update.template, Some("{prefix:<15}  {spinner:.cyan}  {msg}".to_string()));
    assert_eq!(render(&update.message), "running...");

    let event = ExecutorEvent::TaskOutput {
        recipe: "core::test".to_string(),
        preview: "hi".to_string(),
    };
    let (line, update) = drawn(ui.react(&event));
    assert_eq!(line, 1);
    assert_eq!(update.tick, Tick::Keep);
    assert_eq!(update.template, None);
    assert_eq!(render(&update.message), "running...  hi");

    let done = status(TaskState::Failed { duration: seconds(3) }, "", &[]);
    let (line, update) = ui.update_task(&done).unwrap();
    assert_eq!(line, 1);
    assert_eq!(update.tick, Tick::Stop);
}

#[test]
fn output_is_shown_only_while_a_recipe_runs() {
    let mut ui = UI::new(&["core::test".to_string(), "b".to_string()]);
    let late = ExecutorEvent::TaskOutput {
        recipe: "core::test".to_string(),
        preview: "late".to_string(),
    };
    assert!(ui.update_output("core::test", "early").is_none());
    assert!(ui.update_task(&status(TaskState::Waiting, "", &[])).is_some());
    assert!(matches!(ui.react(&late), Reaction::Ignore));

    for end in [
        TaskState::Completed { duration: seconds(1), total_duration: None },
        TaskState::Failed { duration: seconds(1) },
        TaskState::Skipped { failed_dep: "x".to_string() },
    ] {
        assert!(ui.update_task(&status(TaskState::Running, "", &[])).is_some());
        assert_eq!(ui.update_output("core::test", "out").unwrap().0, 0);
        assert!(ui.update_output("b", "out").is_none());
        let (line, update) = ui.update_task(&status(end, "", &[])).unwrap();
        assert_eq!(line, 0);
        assert_ne!(render(&update.message), "running...  late");
        assert!(ui.update_output("core::test", "late").is_none());
        assert!(matches!(ui.react(&late), Reaction::Ignore));
    }
}

#[test]
fn events_of_other_recipes_are_ignored() {
    let mut ui = UI::new(&["a".to_string()]);
    let event = ExecutorEvent::TaskUpdated(status(TaskState::Running, "", &[]));
    assert!(matches!(ui.react(&event), Reaction::Ignore));
    assert!(ui.update_output("c", "x").is_none());
    let event = ExecutorEvent::TaskOutput { recipe: "c".to_string(), preview: "x".to_string() };
    assert!(matches!(ui.react(&event), Reaction::Ignore));
}

#[test]
fn last_event_ends_the_display() {
    let mut ui = UI::new(&["a".to_string()]);
    let event = ExecutorEvent::AllDone { success: 3, failed: 1, total_duration: seconds(9) };
    match ui.react(&event) {
        Reaction::Stop { success, failed, total_duration } => {
            assert_eq!((success, failed, total_duration), (3, 1, seconds(9)));
        }
        _ => panic!("the display goes on"),
    }
}
