use floaty_todo::types::hash_content;
use floaty_todo::watcher::{concerns, event_for, IgnoreHashes, WatchEvent};

#[test]
fn ignore_hashes_register_and_consume() {
    let mut ig = IgnoreHashes::new();
    let h = [42u8; 32];
    ig.register(h);
    assert!(ig.check_and_remove(&h));
    assert!(!ig.check_and_remove(&h));
}

#[test]
fn registering_twice_is_consumed_once() {
    let mut ig = IgnoreHashes::new();
    let h = [7u8; 32];
    ig.register(h);
    ig.register(h);
    assert!(ig.check_and_remove(&h));
    assert!(!ig.check_and_remove(&h));
}

#[test]
fn folder_source_respects_registered_hash() {
    let mut ig = IgnoreHashes::new();
    let own = hash_content(b"- [x] x\n");
    ig.register(own);
    assert_eq!(event_for("/v/a.md".into(), true, Some(own), &mut ig), None);
    assert_eq!(
        event_for("/v/a.md".into(), true, Some(own), &mut ig),
        Some(WatchEvent::Changed("/v/a.md".into()))
    );
}

#[test]
fn deleted_and_unreadable_files() {
    let mut ig = IgnoreHashes::new();
    assert_eq!(event_for("/v/a.md".into(), false, None, &mut ig), Some(WatchEvent::Deleted("/v/a.md".into())));
    assert_eq!(event_for("/v/a.md".into(), true, None, &mut ig), None);
}

#[test]
fn folder_source_ignores_non_markdown() {
    assert!(!concerns("/v/notes.txt", None, "/v/notes.txt"));
    assert!(concerns("/v/a.md", None, "/v/a.md"));
}

#[test]
fn file_source_only_fires_for_target_file() {
    assert!(!concerns("/v/other.md", Some("/v/todo.md"), "/v/other.md"));
    assert!(concerns("/v/todo.md", Some("/v/todo.md"), "/v/todo.md"));
}
