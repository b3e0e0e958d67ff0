use floaty_todo::hub::{mirror_path_for, mirror_paths, sanitize_name, should_replace, stale_entries};
use floaty_todo::types::{Source, SourceKind};

fn file_source(path: &str, label: &str) -> Source {
    Source {
        id: Source::id_for(path),
        path: path.to_string(),
        kind: SourceKind::File,
        label: Some(label.to_string()),
        project_root: None,
        color: None,
    }
}

#[test]
fn sanitize_drops_reserved_chars() {
    assert_eq!(sanitize_name("a/b:c?d"), "a_b_c_d");
    assert_eq!(sanitize_name("  spaced  "), "spaced");
    assert_eq!(sanitize_name("trail..."), "trail");
}

#[test]
fn sanitize_replaces_control_characters() {
    assert_eq!(sanitize_name("a\u{7}b\u{9f}c"), "a_b_c");
    assert_eq!(sanitize_name("<>|*\"\\"), "______");
    assert_eq!(sanitize_name(" x . "), "x");
}

#[test]
fn mirror_path_uses_label_with_extension() {
    let tmp = tempfile::TempDir::new().unwrap();
    let hub = tmp.path().to_string_lossy().to_string();
    let src = file_source(&tmp.path().join("orig.md").to_string_lossy(), "WishTalk");
    let p = mirror_path_for(&hub, &src, &vec![]);
    assert_eq!(p, tmp.path().join("WishTalk.md").to_string_lossy());
}

#[test]
fn mirror_path_falls_back_to_stem_then_id() {
    let mut s = file_source("/p/todo.txt", "   ");
    assert_eq!(mirror_path_for("/hub", &s, &vec![]), "/hub/todo.txt");
    s.label = None;
    s.path = "/p/noext".to_string();
    assert_eq!(mirror_path_for("/hub/", &s, &vec![]), "/hub/noext.md");
    s.path = "/p/???.md".to_string();
    s.label = Some("a/b".to_string());
    assert_eq!(mirror_path_for("/hub", &s, &vec![]), "/hub/a_b.md");
    let folder = Source {
        id: "abc123".to_string(),
        path: "/".to_string(),
        kind: SourceKind::Folder,
        label: None,
        project_root: None,
        color: None,
    };
    assert_eq!(mirror_path_for("/hub", &folder, &vec![]), "/hub/abc123");
}

#[test]
fn replace_decision_by_kind() {
    assert!(!should_replace(SourceKind::File, true, false, false, true));
    assert!(should_replace(SourceKind::File, true, false, false, false));
    assert!(should_replace(SourceKind::File, false, true, false, true));
    assert!(!should_replace(SourceKind::Folder, false, true, false, false));
    assert!(!should_replace(SourceKind::Folder, false, false, true, false));
    assert!(should_replace(SourceKind::Folder, true, false, false, false));
}

#[test]
fn sync_all_prunes_orphans() {
    let src = file_source("/data/real.md", "Live");
    let entries = vec!["/hub/Stale.md".to_string(), "/hub/Live.md".to_string()];
    assert_eq!(stale_entries("/hub", &entries, &vec![src]), vec!["/hub/Stale.md".to_string()]);
}

#[test]
fn sanitize_strips_the_whole_trailing_run_of_dots_and_spaces() {
    assert_eq!(sanitize_name("a. ."), "a");
    assert_eq!(sanitize_name("  notes .. .  "), "notes");
    assert_eq!(sanitize_name("tab.\t"), "tab._");
    assert_eq!(sanitize_name(". . ."), "");
    assert_eq!(sanitize_name(".hidden"), ".hidden");
    assert_eq!(sanitize_name("v1.2 final"), "v1.2 final");
}

#[test]
fn a_taken_mirror_name_gets_the_source_id() {
    let mut s = file_source("/p/orig.md", "WishTalk");
    s.id = "a1b2c3d4".to_string();
    let taken = vec!["/hub/WishTalk.md".to_string()];
    assert_eq!(mirror_path_for("/hub", &s, &taken), "/hub/WishTalk (a1b2c3d4).md");
    assert_eq!(mirror_path_for("/hub", &s, &vec!["/hub/Other.md".to_string()]), "/hub/WishTalk.md");
    let mut folder = s.clone();
    folder.kind = SourceKind::Folder;
    assert_eq!(mirror_path_for("/hub", &folder, &vec!["/hub/WishTalk".to_string()]), "/hub/WishTalk (a1b2c3d4)");
}

#[test]
fn the_later_of_two_namesakes_is_made_unique() {
    let mut a = file_source("/p/a.md", "Notes");
    a.id = "aaaa".to_string();
    let mut b = file_source("/q/b.md", "Notes");
    b.id = "bbbb".to_string();
    let mut c = file_source("/r/c.md", "Other");
    c.id = "cccc".to_string();
    let paths = mirror_paths("/hub", &vec![a.clone(), b.clone(), c.clone()]);
    assert_eq!(paths, vec!["/hub/Notes.md", "/hub/Notes (bbbb).md", "/hub/Other.md"]);
    let entries = vec!["/hub/Notes (bbbb).md".to_string(), "/hub/Old.md".to_string()];
    assert_eq!(stale_entries("/hub", &entries, &vec![a, b, c]), vec!["/hub/Old.md".to_string()]);
}
