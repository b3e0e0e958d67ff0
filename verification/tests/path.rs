use floaty_todo::hub::mirror_path_for;
use floaty_todo::path::{file_name, join, parent};
use floaty_todo::registry::{is_markdown_target, is_not_ignored};
use floaty_todo::types::{Source, SourceKind};

#[test]
fn windows_paths_split_on_backslashes_after_the_drive() {
    assert_eq!(file_name("C:\\a\\b.md"), Some("b.md".to_string()));
    assert_eq!(parent("C:\\a\\b.md"), Some("C:\\a".to_string()));
    assert_eq!(parent("C:\\a"), Some("C:\\".to_string()));
    assert_eq!(parent("C:\\"), None);
    assert_eq!(file_name("C:\\"), None);
    assert_eq!(parent("C:a"), Some("C:".to_string()));
    assert_eq!(file_name("C:/a/b.md"), Some("b.md".to_string()));
}

#[test]
fn unix_paths_read_as_before() {
    assert_eq!(file_name("/a/b.md"), Some("b.md".to_string()));
    assert_eq!(parent("/a/b.md"), Some("/a".to_string()));
    assert_eq!(parent("/a"), Some("/".to_string()));
    assert_eq!(parent("/"), None);
    assert_eq!(parent("a"), Some(String::new()));
    assert_eq!(file_name("a/.."), None);
}

#[test]
fn join_uses_the_separator_of_the_base() {
    assert_eq!(join("C:\\hub", "X.md"), "C:\\hub\\X.md");
    assert_eq!(join("C:\\hub\\", "X.md"), "C:\\hub\\X.md");
    assert_eq!(join("/hub", "x"), "/hub/x");
    assert_eq!(join("C:\\a", "\\b"), "C:\\b");
    assert_eq!(join("C:\\a", "D:\\x"), "D:\\x");
    assert_eq!(join("/a", "/b"), "/b");
    assert_eq!(join("C:", "x"), "C:x");
    assert_eq!(join("", "x"), "x");
}

#[test]
fn windows_sources_get_windows_mirror_paths_and_roots() {
    let s = Source {
        id: "id1".to_string(),
        path: "C:\\p\\todo.md".to_string(),
        kind: SourceKind::File,
        label: None,
        project_root: None,
        color: None,
    };
    assert_eq!(s.effective_project_root(), "C:\\p");
    assert_eq!(mirror_path_for("C:\\hub", &s, &vec![]), "C:\\hub\\todo.md");
    assert!(is_markdown_target("C:\\v\\notes.MD"));
    assert!(!is_not_ignored("C:\\v\\.git\\x.md"));
    assert!(is_not_ignored("C:\\v\\my.git\\x.md"));
}
