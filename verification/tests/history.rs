use floaty_todo::error::AppError;
use floaty_todo::history::{
    apply_forward, apply_reverse, in_merge_window, ts_or_epoch, DiffSummary, HistoryAction, HistoryEvent, HistoryStore, JumpDirection, LineSnapshot,
    TaskLineState,
};
use floaty_todo::storage::line_hash;

fn line(line: usize, text: &str, done: bool) -> LineSnapshot {
    let marker = if done { "x" } else { " " };
    let raw = format!("- [{}] {}\n", marker, text);
    LineSnapshot {
        line,
        state: Some(TaskLineState { done, text: text.to_string(), quadrant: None }),
        hash: line_hash(&raw),
        raw,
    }
}

fn event(id: &str, action: HistoryAction) -> HistoryEvent {
    HistoryEvent {
        id: id.to_string(),
        ts: "2026-05-15T00:00:00Z".to_string(),
        source_id: "source-a".to_string(),
        file: "todo.md".to_string(),
        action,
    }
}

fn toggle(id: &str) -> HistoryEvent {
    event(
        id,
        HistoryAction::Toggle { task_id: "task-a".to_string(), before: line(1, "x", false), after: line(1, "x", true) },
    )
}

fn external(id: &str) -> HistoryEvent {
    event(
        id,
        HistoryAction::ExternalEdit {
            diff_summary: DiffSummary { added: 1, removed: 0, modified: 0 },
            size_bytes_delta: 8,
            note: "external save".to_string(),
        },
    )
}

fn open_empty() -> HistoryStore {
    HistoryStore::from_loaded(
        "/data/.floaty-history.jsonl".to_string(),
        "/data/.floaty-history.cursor".to_string(),
        Vec::new(),
        None,
        Vec::new(),
    )
}

fn ids(store: &HistoryStore) -> Vec<String> {
    store.list(10, None).into_iter().map(|e| e.id).collect()
}

#[test]
fn push_pop_undo_redo_moves_cursor_over_app_events() {
    let mut store = open_empty();
    store.push(toggle("01"));
    store.push(toggle("02"));

    assert_eq!(store.cursor_id(), Some("02"));
    let next = store.peek_undo().unwrap();
    assert_eq!(next.id, "02");
    store.commit_undo(&next.id).unwrap();
    assert_eq!(store.cursor_id(), Some("01"));
    let next = store.peek_redo().unwrap();
    assert_eq!(next.id, "02");
    store.commit_redo(&next.id).unwrap();
    assert_eq!(store.cursor_id(), Some("02"));
}

#[test]
fn push_after_undo_truncates_redo_branch() {
    let mut store = open_empty();
    store.push(toggle("01"));
    store.push(toggle("02"));
    let next = store.peek_undo().unwrap();
    store.commit_undo(&next.id).unwrap();
    store.push(toggle("03"));

    assert_eq!(ids(&store), vec!["03", "01"]);
    assert!(store.peek_redo().is_none());
}

#[test]
fn undo_redo_skips_external_edits_but_cursor_remains_timeline_based() {
    let mut store = open_empty();
    store.push(toggle("01"));
    store.push(external("02"));
    store.push(toggle("03"));

    let next = store.peek_undo().unwrap();
    assert_eq!(next.id, "03");
    store.commit_undo(&next.id).unwrap();
    assert_eq!(store.cursor_id(), Some("02"));
    let next = store.peek_undo().unwrap();
    assert_eq!(next.id, "01");
    store.commit_undo(&next.id).unwrap();
    assert_eq!(store.cursor_id(), None);
    let next = store.peek_redo().unwrap();
    assert_eq!(next.id, "01");
    store.commit_redo(&next.id).unwrap();
    assert_eq!(store.cursor_id(), Some("01"));
}

#[test]
fn loaded_store_takes_saved_cursor() {
    let store = HistoryStore::from_loaded(
        "/d/h.jsonl".to_string(),
        "/d/h.cursor".to_string(),
        vec![toggle("01"), toggle("02")],
        Some("01".to_string()),
        vec!["todo.md".to_string(), "todo.md".to_string()],
    );
    assert_eq!(store.cursor_id(), Some("01"));
    assert_eq!(ids(&store), vec!["02", "01"]);
    assert_eq!(store.file_path(), "/d/h.jsonl");
}

#[test]
fn apply_reverse_and_forward_toggle_are_hash_guarded() {
    let e = toggle("01");
    let forward = apply_forward(&e, "- [ ] x\n").unwrap().unwrap();
    assert_eq!(forward, "- [x] x\n");
    let back = apply_reverse(&e, &forward).unwrap().unwrap();
    assert_eq!(back, "- [ ] x\n");
    let err = apply_forward(&e, "- [ ] externally changed\n").unwrap_err();
    assert!(matches!(err, AppError::HistoryHashMismatch { .. }));
}

#[test]
fn apply_reverse_add_removes_added_line_and_forward_reinserts_it() {
    let e = event("01", HistoryAction::Add { after: line(2, "added", false) });
    let reversed = apply_reverse(&e, "- [ ] existing\n- [ ] added\n").unwrap().unwrap();
    assert_eq!(reversed, "- [ ] existing\n");
    let forward = apply_forward(&e, &reversed).unwrap().unwrap();
    assert_eq!(forward, "- [ ] existing\n- [ ] added\n");
}

#[test]
fn apply_forward_delete_removes_line_and_reverse_reinserts_it() {
    let e = event("01", HistoryAction::Delete { task_id: "task-a".to_string(), before: line(2, "gone", false) });
    let forward = apply_forward(&e, "- [ ] keep\n- [ ] gone\n").unwrap().unwrap();
    assert_eq!(forward, "- [ ] keep\n");
    let back = apply_reverse(&e, &forward).unwrap().unwrap();
    assert_eq!(back, "- [ ] keep\n- [ ] gone\n");
}

#[test]
fn apply_forward_delete_is_hash_guarded() {
    let e = event("01", HistoryAction::Delete { task_id: "task-a".to_string(), before: line(1, "original text", false) });
    let err = apply_forward(&e, "- [ ] changed externally\n").unwrap_err();
    assert!(matches!(err, AppError::HistoryHashMismatch { .. }));
}

#[test]
fn external_edit_is_not_replayed() {
    let e = external("01");
    assert_eq!(apply_forward(&e, "abc\n").unwrap(), None);
    assert_eq!(apply_reverse(&e, "abc\n").unwrap(), None);
}

#[test]
fn external_edits_within_throttle_window_merge_into_one_event() {
    let mut store = open_empty();
    store.record_file_snapshot("todo.md".to_string(), b"- [ ] a\n".to_vec());
    store.push_external_edit("src".into(), "todo.md".into(), "todo.md".into(), b"- [ ] a\n- [ ] b\n".to_vec());
    store.push_external_edit("src".into(), "todo.md".into(), "todo.md".into(), b"- [ ] a\n- [ ] b\n- [ ] c\n".to_vec());

    let events = store.list(10, None);
    assert_eq!(events.len(), 1, "second edit must merge into the first");
    if let HistoryAction::ExternalEdit { diff_summary, size_bytes_delta, .. } = &events[0].action {
        assert_eq!(diff_summary.added, 2, "two added lines total");
        assert!(*size_bytes_delta > 0);
    } else {
        panic!("expected ExternalEdit");
    }
}

#[test]
fn external_edit_diff_summary_uses_recorded_snapshot() {
    let mut store = open_empty();
    store.record_file_snapshot("todo.md".to_string(), b"- [ ] a\n- [ ] b\n".to_vec());
    store.push_external_edit("src".into(), "todo.md".into(), "todo.md".into(), b"- [ ] a\n".to_vec());

    let events = store.list(10, None);
    if let HistoryAction::ExternalEdit { diff_summary, .. } = &events[0].action {
        assert_eq!(diff_summary.removed, 1);
        assert_eq!(diff_summary.added, 0);
    } else {
        panic!("expected ExternalEdit");
    }
}

#[test]
fn external_edit_with_unchanged_content_is_dropped() {
    let mut store = open_empty();
    store.record_file_snapshot("todo.md".to_string(), b"- [x] done\n".to_vec());
    store.push_external_edit("src".into(), "todo.md".into(), "todo.md".into(), b"- [x] done\n".to_vec());
    store.push_external_edit("src".into(), "todo.md".into(), "todo.md".into(), b"- [x] done\n".to_vec());
    assert!(store.list(10, None).is_empty(), "no events for no-op saves");
}

#[test]
fn first_external_edit_without_baseline_establishes_snapshot_silently() {
    let mut store = open_empty();
    store.push_external_edit("src".into(), "todo.md".into(), "todo.md".into(), b"- [ ] x\n".to_vec());
    assert!(store.list(10, None).is_empty());

    store.push_external_edit("src".into(), "todo.md".into(), "todo.md".into(), b"- [ ] x\n- [ ] y\n".to_vec());
    let events = store.list(10, None);
    assert_eq!(events.len(), 1);
    if let HistoryAction::ExternalEdit { diff_summary, .. } = &events[0].action {
        assert_eq!(diff_summary.added, 1);
    } else {
        panic!("expected ExternalEdit");
    }
}

#[test]
fn jump_plan_undo_redo_and_in_place() {
    let mut store = open_empty();
    store.push(toggle("01"));
    store.push(toggle("02"));
    store.push(toggle("03"));

    let plan = store.jump_plan("01").unwrap();
    assert_eq!(plan.direction, JumpDirection::Undo);
    let ids: Vec<_> = plan.events.iter().map(|e| e.id.clone()).collect();
    assert_eq!(ids, vec!["03", "02"]);

    store.commit_undo("02").unwrap();
    store.commit_undo("01").unwrap();
    let plan = store.jump_plan("03").unwrap();
    assert_eq!(plan.direction, JumpDirection::Redo);
    let ids: Vec<_> = plan.events.iter().map(|e| e.id.clone()).collect();
    assert_eq!(ids, vec!["01", "02", "03"]);
}

#[test]
fn new_event_gets_fresh_id_and_timestamp() {
    let a = HistoryEvent::new("s".into(), "f.md".into(), HistoryAction::Add { after: line(1, "a", false) });
    let b = HistoryEvent::new("s".into(), "f.md".into(), HistoryAction::Add { after: line(1, "a", false) });
    assert_eq!(a.id.len(), 26);
    assert_ne!(a.id, b.id);
    assert!(a.ts.contains('T'));
    assert!(!a.action.is_external());
    assert!(external("x").action.is_external());
}

#[test]
fn merge_window_is_under_five_hundred_milliseconds() {
    assert!(in_merge_window(Some(0)));
    assert!(in_merge_window(Some(499)));
    assert!(!in_merge_window(Some(500)));
    assert!(!in_merge_window(Some(10_000)));
    assert!(!in_merge_window(None));
}

#[test]
fn unformattable_time_falls_back_to_the_epoch() {
    assert_eq!(ts_or_epoch(None), "1970-01-01T00:00:00Z");
    assert_eq!(ts_or_epoch(Some("2026-05-15T10:00:00Z".to_string())), "2026-05-15T10:00:00Z");
}
