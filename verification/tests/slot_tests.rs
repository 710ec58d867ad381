use launchpath::slot::notify_delays_ms;
use launchpath::slot::LaunchSlot;

fn args(list: &[&str]) -> Vec<String> {
    list.iter().map(|s| s.to_string()).collect()
}

#[test]
fn new_slot_is_empty() {
    let slot = LaunchSlot::new();
    assert_eq!(slot.peek(), None);
}

#[test]
fn store_then_peek_returns_the_path() {
    let mut slot = LaunchSlot::new();
    slot.store("a.json".to_string());
    assert_eq!(slot.peek(), Some("a.json".to_string()));
    // Peeking does not clear the slot.
    assert_eq!(slot.peek(), Some("a.json".to_string()));
}

#[test]
fn store_overwrites_prior_value() {
    let mut slot = LaunchSlot::new();
    slot.store("first.json".to_string());
    slot.store("second.json".to_string());
    assert_eq!(slot.peek(), Some("second.json".to_string()));
}

#[test]
fn absorb_args_fills_the_slot_and_returns_the_path() {
    let mut slot = LaunchSlot::new();
    let a = args(&["--flag", "doc.json"]);
    assert_eq!(slot.absorb_args(&a), Some("doc.json".to_string()));
    assert_eq!(slot.peek(), Some("doc.json".to_string()));
}

#[test]
fn absorb_args_without_match_leaves_the_slot_alone() {
    let mut slot = LaunchSlot::new();
    slot.store("kept.json".to_string());
    let a = args(&["--flag", "notes.txt"]);
    assert_eq!(slot.absorb_args(&a), None);
    assert_eq!(slot.peek(), Some("kept.json".to_string()));
}

#[test]
fn query_prefers_the_populated_slot() {
    let mut slot = LaunchSlot::new();
    slot.store("cached.json".to_string());
    let a = args(&["other.json"]);
    assert_eq!(slot.get_launch_file_path(&a), Some("cached.json".to_string()));
    // The slot is not cleared by the query.
    assert_eq!(slot.peek(), Some("cached.json".to_string()));
}

#[test]
fn query_falls_back_to_the_live_arguments() {
    let mut slot = LaunchSlot::new();
    let a = args(&["late.json"]);
    assert_eq!(slot.get_launch_file_path(&a), Some("late.json".to_string()));
    // The fallback resolution was written back into the slot.
    assert_eq!(slot.peek(), Some("late.json".to_string()));
}

#[test]
fn query_twice_returns_the_same_value() {
    let mut slot = LaunchSlot::new();
    let a = args(&["same.json"]);
    let first = slot.get_launch_file_path(&a);
    let second = slot.get_launch_file_path(&a);
    assert_eq!(first, second);
    assert_eq!(first, Some("same.json".to_string()));
}

#[test]
fn query_twice_on_empty_resolution_returns_none_both_times() {
    let mut slot = LaunchSlot::new();
    let a = args(&["--nothing-here"]);
    assert_eq!(slot.get_launch_file_path(&a), None);
    assert_eq!(slot.get_launch_file_path(&a), None);
    assert_eq!(slot.peek(), None);
}

#[test]
fn secondary_instance_overwrites_and_returns_for_push() {
    // A secondary-instance activation absorbs the forwarded
    // arguments: the slot is overwritten and the path returned for an
    // immediate push to the front end.
    let mut slot = LaunchSlot::new();
    slot.store("old.json".to_string());
    let a = args(&["new.json"]);
    assert_eq!(slot.absorb_args(&a), Some("new.json".to_string()));
    assert_eq!(slot.peek(), Some("new.json".to_string()));
}

#[test]
fn notification_schedule_has_three_increasing_delays() {
    assert_eq!(notify_delays_ms(), vec![800u64, 1500, 2500]);
}
