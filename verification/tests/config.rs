use floaty_todo::config::{config_file, find_source_by_id, hex_color, hub_target, moves_quadrant, quick_action_target, task_target};
use floaty_todo::error::AppError;
use floaty_todo::types::{AppConfig, Quadrant, QuickActionKind, Source, SourceKind};

fn source(id: &str, path: &str, kind: SourceKind) -> Source {
    Source { id: id.to_string(), path: path.to_string(), kind, label: None, project_root: None, color: None }
}

fn config_with(sources: Vec<Source>) -> AppConfig {
    let mut c = AppConfig::default();
    c.sources = sources;
    c
}

#[test]
fn config_file_is_in_the_config_dir() {
    assert_eq!(config_file("/home/u/.config/floaty"), "/home/u/.config/floaty/config.json");
}

#[test]
fn add_task_targets_inbox_of_folder_or_the_file() {
    let mut c = config_with(vec![source("f", "/notes", SourceKind::Folder), source("g", "/p/todo.md", SourceKind::File)]);
    assert!(matches!(task_target(&c, None), Err(AppError::NoSources)));
    c.default_source_id = Some("f".into());
    let (s, f) = task_target(&c, None).unwrap();
    assert_eq!(s.id, "f");
    assert_eq!(f, "/notes/inbox.md");
    let (s, f) = task_target(&c, Some("g".into())).unwrap();
    assert_eq!(s.id, "g");
    assert_eq!(f, "/p/todo.md");
    match task_target(&c, Some("zz".into())) {
        Err(AppError::SourceNotFound(id)) => assert_eq!(id, "zz"),
        other => panic!("unexpected: {:?}", other.map(|x| x.1)),
    }
    assert!(matches!(task_target(&AppConfig::default(), Some("f".into())), Err(AppError::NoSources)));
}

#[test]
fn reorder_requires_the_full_list() {
    let mut c = config_with(vec![
        source("a", "/a", SourceKind::Folder),
        source("b", "/b", SourceKind::Folder),
        source("c", "/c", SourceKind::Folder),
    ]);
    let r = c.reorder_sources(&vec!["c".into(), "a".into()]);
    match r {
        Err(AppError::CommandFailed(m)) => assert_eq!(m, "reorder list does not match current sources"),
        other => panic!("unexpected: {:?}", other),
    }
    assert!(c.reorder_sources(&vec!["c".into(), "a".into(), "x".into()]).is_err());
    c.reorder_sources(&vec!["c".into(), "a".into(), "b".into()]).unwrap();
    let ids: Vec<_> = c.sources.iter().map(|s| s.id.clone()).collect();
    assert_eq!(ids, vec!["c", "a", "b"]);
}

#[test]
fn default_source_must_exist() {
    let mut c = config_with(vec![source("a", "/a", SourceKind::Folder)]);
    assert!(matches!(c.set_default_source(Some("x".into())), Err(AppError::SourceNotFound(_))));
    assert_eq!(c.default_source_id, None);
    c.set_default_source(Some("a".into())).unwrap();
    assert_eq!(c.default_source_id.as_deref(), Some("a"));
    c.set_default_source(None).unwrap();
    assert_eq!(c.default_source_id, None);
}

#[test]
fn file_labels_are_trimmed_and_cleared() {
    let mut c = AppConfig::default();
    c.set_file_label("/v/todo.md", Some("  Work  ".into()));
    assert_eq!(c.file_labels, vec![("/v/todo.md".to_string(), "Work".to_string())]);
    c.set_file_label("/v/todo.md", Some("Home".into()));
    assert_eq!(c.file_labels, vec![("/v/todo.md".to_string(), "Home".to_string())]);
    c.set_file_label("/v/todo.md", Some("   ".into()));
    assert!(c.file_labels.is_empty());
    c.set_file_label("/v/x.md", Some("X".into()));
    c.set_file_label("/v/x.md", None);
    assert!(c.file_labels.is_empty());
}

#[test]
fn update_source_keeps_only_hex_colours() {
    let mut c = config_with(vec![source("a", "/a", SourceKind::Folder)]);
    let s = c.update_source("a", Some("Lbl".into()), Some("/root".into()), Some("#ef4444".into())).unwrap();
    assert_eq!(s.color.as_deref(), Some("#ef4444"));
    assert_eq!(c.sources[0].label.as_deref(), Some("Lbl"));
    assert_eq!(c.sources[0].project_root.as_deref(), Some("/root"));
    let s = c.update_source("a", None, None, Some("red; background:url(x)".into())).unwrap();
    assert_eq!(s.color, None);
    assert!(matches!(c.update_source("zz", None, None, None), Err(AppError::SourceNotFound(_))));
    assert!(hex_color("#abc"));
    assert!(hex_color("#AABBCC"));
    assert!(hex_color("#aabbcc80"));
    assert!(!hex_color("#abcd"));
    assert!(!hex_color("abc"));
    assert!(!hex_color("#ggg"));
}

#[test]
fn remove_source_repicks_default() {
    let mut c = config_with(vec![source("a", "/a", SourceKind::Folder), source("b", "/b", SourceKind::Folder)]);
    c.default_source_id = Some("a".into());
    let removed = c.remove_source("a").unwrap();
    assert_eq!(removed.id, "a");
    assert_eq!(c.default_source_id.as_deref(), Some("b"));
    c.remove_source("b").unwrap();
    assert_eq!(c.default_source_id, None);
    assert!(matches!(c.remove_source("b"), Err(AppError::SourceNotFound(_))));
}

#[test]
fn add_source_labels_dedups_and_sets_default() {
    let mut c = AppConfig::default();
    let s = c.add_source("/work/proj".into(), SourceKind::Folder, None, None).unwrap();
    assert_eq!(s.label.as_deref(), Some("proj"));
    assert_eq!(s.id, Source::id_for("/work/proj"));
    assert_eq!(c.default_source_id.as_deref(), Some(s.id.as_str()));
    let f = c.add_source("/work/other/todo.md".into(), SourceKind::File, Some("  ".into()), None).unwrap();
    assert_eq!(f.label.as_deref(), Some("other"));
    assert_eq!(c.default_source_id.as_deref(), Some(s.id.as_str()));
    let g = c.add_source("/x/y.md".into(), SourceKind::File, None, Some("/roots/main".into())).unwrap();
    assert_eq!(g.label.as_deref(), Some("main"));
    match c.add_source("/work/proj".into(), SourceKind::Folder, Some("dup".into()), None) {
        Err(AppError::DuplicateSource(p)) => assert_eq!(p, "/work/proj"),
        other => panic!("unexpected: {:?}", other),
    }
    assert_eq!(c.sources.len(), 3);
    assert_eq!(find_source_by_id(&c, &f.id).unwrap().path, "/work/other/todo.md");
}

#[test]
fn quadrant_move_only_when_target_differs() {
    assert!(!moves_quadrant(false, Some(Quadrant::UrgentImportant), None));
    assert!(moves_quadrant(true, Some(Quadrant::UrgentImportant), None));
    assert!(!moves_quadrant(true, Some(Quadrant::UrgentImportant), Some(Quadrant::UrgentImportant)));
    assert!(moves_quadrant(true, None, Some(Quadrant::UrgentImportant)));
    assert!(!moves_quadrant(true, None, None));
}

#[test]
fn quick_actions_open_the_project_root_but_reveal_the_path() {
    let mut s = source("g", "/p/sub/todo.md", SourceKind::File);
    assert_eq!(quick_action_target(&s, QuickActionKind::Reveal), "/p/sub/todo.md");
    assert_eq!(quick_action_target(&s, QuickActionKind::Vscode), "/p/sub");
    s.project_root = Some("/p".into());
    assert_eq!(quick_action_target(&s, QuickActionKind::Terminal), "/p");
    assert_eq!(quick_action_target(&s, QuickActionKind::ClaudeCode), "/p");
    assert_eq!(quick_action_target(&s, QuickActionKind::Reveal), "/p/sub/todo.md");
}

#[test]
fn opening_the_hub_needs_a_hub_folder() {
    let mut c = AppConfig::default();
    match hub_target(&c) {
        Err(AppError::CommandFailed(m)) => assert_eq!(m, "hub folder not configured"),
        other => panic!("unexpected: {:?}", other),
    }
    c.hub_folder = Some("/hub".into());
    assert_eq!(hub_target(&c).unwrap(), "/hub");
}
