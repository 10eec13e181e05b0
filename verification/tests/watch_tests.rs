use terax_index::watch::{batch_changes, DrainAction, DrainEvent, DrainState, DEBOUNCE_MS, MAX_WINDOW_MS};

fn received(paths: &[&str], is_access: bool) -> DrainEvent {
    DrainEvent::Received { paths: paths.iter().map(|p| p.to_string()).collect(), is_access }
}

#[test]
fn first_event_opens_a_window_and_waits_the_quiet_spell() {
    let mut state = DrainState::new();
    let a = state.step(1000, received(&["/p/a.ts"], false));
    assert_eq!(a, DrainAction::Wait { timeout_ms: DEBOUNCE_MS });
    let plan = state.flush();
    assert_eq!(plan.apply, vec!["/p/a.ts".to_string()]);
    assert!(plan.announce);
    assert_eq!(plan.next, DrainAction::Listen);
}

#[test]
fn wait_shrinks_near_the_deadline_and_flushes_at_it() {
    let mut state = DrainState::new();
    state.step(0, received(&["a.ts"], false));
    assert_eq!(state.step(900, received(&["b.ts"], false)), DrainAction::Wait { timeout_ms: 100 });
    assert_eq!(state.step(MAX_WINDOW_MS, received(&["c.ts"], false)), DrainAction::Flush);
    assert_eq!(state.flush().apply, vec!["a.ts".to_string(), "b.ts".to_string(), "c.ts".to_string()]);
}

#[test]
fn access_events_add_nothing_and_paths_join_once() {
    let mut state = DrainState::new();
    state.step(0, received(&["a.ts", "a.ts"], false));
    state.step(10, received(&["b.ts"], true));
    state.step(20, received(&["a.ts", "c.ts"], false));
    assert_eq!(state.flush().apply, vec!["a.ts".to_string(), "c.ts".to_string()]);
}

#[test]
fn timeout_flushes_and_disconnect_stops() {
    let mut state = DrainState::new();
    state.step(0, received(&["a.ts"], false));
    assert_eq!(state.step(150, DrainEvent::TimedOut), DrainAction::Flush);
    assert_eq!(state.step(200, DrainEvent::Disconnected), DrainAction::Stop);
}

#[test]
fn a_new_batch_gets_a_new_deadline() {
    let mut state = DrainState::new();
    state.step(0, received(&["a.ts"], false));
    let _ = state.flush();
    assert_eq!(state.step(5000, received(&["b.ts"], false)), DrainAction::Wait { timeout_ms: 150 });
    assert_eq!(state.step(5950, received(&[], false)), DrainAction::Wait { timeout_ms: 50 });
    assert_eq!(state.step(6000, received(&[], false)), DrainAction::Flush);
}

#[test]
fn batch_changes_keeps_only_indexable_paths_in_order() {
    let paths = vec!["/p/b.ts".to_string(), "/p/note.txt".to_string(), "/p/a.mts".to_string(), "/p/c.tsx".to_string()];
    assert_eq!(batch_changes(paths), vec!["/p/b.ts".to_string(), "/p/a.mts".to_string()]);
    assert!(batch_changes(Vec::new()).is_empty());
}

#[test]
fn same_path_written_twice_joins_once() {
    let mut state = DrainState::new();
    state.step(0, received(&["/a//b.ts", "/a/b.ts", "/a/./b.ts", "/a/b.ts/"], false));
    assert_eq!(state.flush().apply, vec!["/a//b.ts".to_string()]);
}

#[test]
fn a_batch_of_other_files_is_not_announced() {
    let mut state = DrainState::new();
    state.step(0, received(&["/p/readme.md", "/p/x.tsx"], false));
    let plan = state.flush();
    assert!(plan.apply.is_empty());
    assert!(!plan.announce);
    assert_eq!(plan.next, DrainAction::Listen);
}
