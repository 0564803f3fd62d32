use portrait_shuffler::run_state::RunState;
use portrait_shuffler::shared::SharedRunState;

fn strings(v: &[&str]) -> Vec<String> {
    v.iter().map(|s| s.to_string()).collect()
}

fn active(queue: &[&str], completed: &[&str]) -> RunState {
    RunState {
        run_id: 3,
        queue: strings(queue),
        completed: strings(completed),
        failed: true,
        started_at_ms: Some(100),
        updated_at_ms: Some(200),
    }
}

#[test]
fn default_state_is_empty() {
    let s = RunState::default();
    assert_eq!(s.run_id, 0);
    assert!(s.queue.is_empty());
    assert!(s.completed.is_empty());
    assert!(!s.failed);
    assert_eq!(s.started_at_ms, None);
    assert_eq!(s.updated_at_ms, None);
    assert_eq!(s, RunState::new());
}

#[test]
fn start_run_with_no_characters_changes_nothing() {
    let mut s = active(&["x"], &["y"]);
    let before = s.clone();
    s.start_run(Vec::new(), 42, 999);
    assert_eq!(s, before);
}

#[test]
fn start_run_shuffles_and_resets_progress() {
    let mut s = RunState::default();
    s.start_run(strings(&["a", "b", "c"]), 42, 1234);
    assert_eq!(s.run_id, 1);
    assert_eq!(s.queue, strings(&["c", "a", "b"]));
    assert!(s.completed.is_empty());
    assert!(!s.failed);
    assert_eq!(s.started_at_ms, Some(1234));
    assert_eq!(s.updated_at_ms, Some(1234));

    let mut sorted = s.queue.clone();
    sorted.sort();
    assert_eq!(sorted, strings(&["a", "b", "c"]));

    s.start_run(strings(&["a", "b", "c"]), 42, 2000);
    assert_eq!(s.run_id, 2);
}

#[test]
fn start_run_id_wraps_to_one() {
    let mut s = active(&["x"], &[]);
    s.run_id = u64::MAX;
    s.start_run(strings(&["a"]), 0, 5);
    assert_eq!(s.run_id, 1);
    assert_eq!(s.queue, strings(&["a"]));
    assert!(s.completed.is_empty());
}

#[test]
fn complete_front_of_queue() {
    let mut s = active(&["x", "y"], &[]);
    s.complete_character(None, 300);
    assert_eq!(s.queue, strings(&["y"]));
    assert_eq!(s.completed, strings(&["x"]));
    assert!(!s.failed);
    assert_eq!(s.updated_at_ms, Some(300));
    assert_eq!(s.started_at_ms, Some(100));
}

#[test]
fn complete_named_character_keeps_completion_order() {
    let mut s = active(&["x", "y", "z", "y"], &["w"]);
    s.complete_character(Some("y".to_string()), 300);
    assert_eq!(s.queue, strings(&["x", "z", "y"]));
    assert_eq!(s.completed, strings(&["w", "y"]));
    s.complete_character(Some("x".to_string()), 400);
    assert_eq!(s.queue, strings(&["z", "y"]));
    assert_eq!(s.completed, strings(&["w", "y", "x"]));
}

#[test]
fn complete_absent_character_changes_nothing() {
    let mut s = active(&["x", "y"], &[]);
    let before = s.clone();
    s.complete_character(Some("z".to_string()), 300);
    assert_eq!(s, before);
}

#[test]
fn complete_on_empty_queue_changes_nothing() {
    let mut s = active(&[], &["x", "y"]);
    let before = s.clone();
    s.complete_character(None, 300);
    assert_eq!(s, before);
    s.complete_character(Some("x".to_string()), 300);
    assert_eq!(s, before);
}

#[test]
fn fail_before_any_run_changes_nothing() {
    let mut s = RunState::default();
    s.fail_run(50);
    assert_eq!(s, RunState::default());
}

#[test]
fn fail_then_complete_clears_flag() {
    let mut s = RunState::default();
    s.start_run(strings(&["a", "b"]), 7, 10);
    s.fail_run(20);
    assert!(s.failed);
    assert_eq!(s.updated_at_ms, Some(20));
    assert_eq!(s.started_at_ms, Some(10));
    assert_eq!(s.queue.len(), 2);
    s.complete_character(None, 30);
    assert!(!s.failed);
    assert_eq!(s.queue.len(), 1);
    assert_eq!(s.completed.len(), 1);
}

#[test]
fn reset_returns_default_from_any_state() {
    let mut s = active(&["x", "y"], &["z"]);
    s.reset_run();
    assert_eq!(s, RunState::default());
    let mut t = RunState::default();
    t.reset_run();
    assert_eq!(t, RunState::default());
}

#[test]
fn snapshot_is_equal_copy() {
    let s = active(&["x", "y"], &["z"]);
    assert_eq!(s.snapshot(), s);
}

#[test]
fn shared_state_walkthrough() {
    let shared = SharedRunState::new();
    assert_eq!(shared.get_run_state(), RunState::default());

    assert_eq!(shared.fail_run(), RunState::default());
    assert_eq!(shared.start_run(Vec::new(), Some(1)), RunState::default());

    let s = shared.start_run(strings(&["a", "b", "c"]), Some(42));
    assert_eq!(s.run_id, 1);
    assert_eq!(s.queue, strings(&["c", "a", "b"]));
    assert!(s.completed.is_empty());
    assert!(!s.failed);
    assert!(s.started_at_ms.is_some());
    assert_eq!(s.started_at_ms, s.updated_at_ms);
    assert_eq!(shared.get_run_state(), s);

    let s = shared.complete_character(None);
    assert_eq!(s.queue, strings(&["a", "b"]));
    assert_eq!(s.completed, strings(&["c"]));

    let before = shared.get_run_state();
    assert_eq!(shared.complete_character(Some("z".to_string())), before);

    let s = shared.fail_run();
    assert!(s.failed);
    let s = shared.complete_character(Some("b".to_string()));
    assert!(!s.failed);
    assert_eq!(s.queue, strings(&["a"]));
    assert_eq!(s.completed, strings(&["c", "b"]));

    assert_eq!(shared.reset_run(), RunState::default());
    assert_eq!(shared.get_run_state(), RunState::default());
}

#[test]
fn later_start_replaces_whole_state() {
    let shared = SharedRunState::new();
    shared.start_run(strings(&["a", "b", "c"]), Some(42));
    shared.complete_character(None);
    let s = shared.start_run(strings(&["p", "q"]), Some(1));
    assert_eq!(s.run_id, 2);
    assert_eq!(s.queue, strings(&["q", "p"]));
    assert!(s.completed.is_empty());
    assert_eq!(shared.get_run_state(), s);
}
