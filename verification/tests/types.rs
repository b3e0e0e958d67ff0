use floaty_todo::types::{
    default_quick_actions, hash_content, short_id_from_digest, short_id_of, AppConfig, HotkeyConfig, QuickActionKind, Source,
    SourceKind,
};
use floaty_todo::error::AppError;

#[test]
fn config_defaults_auto_create_headers_to_true() {
    let c = AppConfig::default();
    assert!(c.auto_create_quadrant_headers);
}

#[test]
fn hotkey_config_has_sensible_defaults() {
    let h = HotkeyConfig::defaults();
    assert_eq!(h.toggle.as_deref(), Some("CmdOrCtrl+Shift+T"));
    assert_eq!(h.quick_add.as_deref(), Some("CmdOrCtrl+Shift+A"));
}

#[test]
fn config_defaults_include_hotkeys() {
    let c = AppConfig::default();
    assert_eq!(c.hotkeys.toggle.as_deref(), Some("CmdOrCtrl+Shift+T"));
}

#[test]
fn config_defaults_are_complete() {
    let c = AppConfig::default();
    assert!(c.sources.is_empty());
    assert_eq!(c.default_source_id, None);
    assert_eq!(c.inbox_file, "inbox.md");
    assert!(c.always_on_top);
    assert!(c.file_labels.is_empty());
    assert_eq!(c.hub_folder, None);
    assert_eq!(
        c.enabled_quick_actions,
        vec![QuickActionKind::Reveal, QuickActionKind::Vscode, QuickActionKind::Terminal]
    );
    assert_eq!(default_quick_actions(), c.enabled_quick_actions);
}

#[test]
fn sha256_and_hex_of_known_inputs() {
    let h = hash_content(b"abc");
    assert_eq!(h[0], 0xba);
    assert_eq!(h[31], 0xad);
    assert_eq!(short_id_of(""), "e3b0c44298fc1c14");
    assert_eq!(short_id_of("abc"), "ba7816bf8f01cfea");
    assert_eq!(
        floaty_todo::storage::line_hash("abc"),
        "sha256:ba7816bf8f01cfea414140de5dae2223b00361a396177a9cb410ff61f20015ad"
    );
}

#[test]
fn source_id_is_short_hash_of_path() {
    let id = Source::id_for("/home/me/notes");
    assert_eq!(id, short_id_of("/home/me/notes"));
    assert_eq!(id.len(), 16);
}

fn source(kind: SourceKind, path: &str, root: Option<&str>) -> Source {
    Source {
        id: Source::id_for(path),
        path: path.to_string(),
        kind,
        label: None,
        project_root: root.map(|r| r.to_string()),
        color: None,
    }
}

#[test]
fn effective_project_root_defaults() {
    assert_eq!(source(SourceKind::Folder, "/a/b", None).effective_project_root(), "/a/b");
    assert_eq!(source(SourceKind::File, "/a/b/todo.md", None).effective_project_root(), "/a/b");
    assert_eq!(source(SourceKind::File, "/a/todo.md", Some("/x")).effective_project_root(), "/x");
}

#[test]
fn error_codes_are_stable() {
    assert_eq!(AppError::NoSources.code(), "NO_SOURCES");
    assert_eq!(AppError::SourceNotFound("x".into()).code(), "SOURCE_NOT_FOUND");
    assert_eq!(AppError::NotATaskLine { path: "p".into(), line: 3 }.code(), "NOT_A_TASK_LINE");
    assert_eq!(AppError::ExternalInUndoRange { count: 2 }.code(), "EXTERNAL_IN_UNDO_RANGE");
}

#[test]
fn short_id_is_the_hex_of_the_first_eight_digest_bytes() {
    let mut d = [0u8; 32];
    for (i, b) in d.iter_mut().enumerate() {
        *b = (i as u8) * 17;
    }
    assert_eq!(short_id_from_digest(&d), "0011223344556677");
    let z = [0xffu8; 32];
    assert_eq!(short_id_from_digest(&z), "ffffffffffffffff");
}
