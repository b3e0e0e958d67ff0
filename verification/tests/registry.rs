use floaty_todo::parser::parse_bytes;
use floaty_todo::registry::{is_markdown_extension, is_markdown_target, is_not_ignored, TaskRegistry};

fn scan(reg: &mut TaskRegistry, files: &[(&str, &str)]) {
    for (path, content) in files {
        if is_markdown_target(path) {
            let tasks = parse_bytes(content.as_bytes(), path, "src");
            reg.refresh_file(path, Some(tasks));
        }
    }
}

#[test]
fn rebuild_collects_tasks_across_files() {
    let mut r = TaskRegistry::new();
    scan(&mut r, &[("/v/a.md", "- [ ] one\n- [x] done\n"), ("/v/sub/b.md", "- [ ] two\n")]);
    assert_eq!(r.all_tasks().len(), 3);
}

#[test]
fn rebuild_skips_obsidian_and_git_dirs() {
    let mut r = TaskRegistry::new();
    scan(
        &mut r,
        &[
            ("/v/a.md", "- [ ] keep\n"),
            ("/v/.obsidian/x.md", "- [ ] skip\n"),
            ("/v/.git/y.md", "- [ ] skip\n"),
            ("/v/node_modules/z.md", "- [ ] skip\n"),
        ],
    );
    let all: Vec<_> = r.all_tasks().iter().map(|t| t.text.clone()).collect();
    assert_eq!(all, vec!["keep"]);
}

#[test]
fn refresh_file_replaces_old_entries() {
    let mut r = TaskRegistry::new();
    scan(&mut r, &[("/v/a.md", "- [ ] old\n")]);
    assert_eq!(r.all_tasks().len(), 1);
    let tasks = parse_bytes(b"- [ ] new1\n- [ ] new2\n", "/v/a.md", "src");
    r.refresh_file("/v/a.md", Some(tasks));
    let names: Vec<_> = r.all_tasks().iter().map(|t| t.text.clone()).collect();
    assert_eq!(names, vec!["new1", "new2"]);
}

#[test]
fn refresh_file_handles_deletion() {
    let mut r = TaskRegistry::new();
    scan(&mut r, &[("/v/a.md", "- [ ] x\n")]);
    r.refresh_file("/v/a.md", None);
    assert_eq!(r.all_tasks().len(), 0);
}

#[test]
fn refresh_file_drops_tasks_from_a_line_that_is_gone() {
    let mut r = TaskRegistry::new();
    scan(&mut r, &[("/v/a.md", "- [ ] one\n- [ ] two\n"), ("/v/b.md", "- [ ] other\n")]);
    let gone = r.all_tasks().iter().find(|t| t.text == "two").unwrap().id.clone();
    let tasks = parse_bytes(b"- [ ] one\n", "/v/a.md", "src");
    r.refresh_file("/v/a.md", Some(tasks));
    assert!(r.get(&gone).is_none());
    let names: Vec<_> = r.all_tasks().iter().map(|t| t.text.clone()).collect();
    assert_eq!(names, vec!["one", "other"]);
}

#[test]
fn get_finds_by_id() {
    let mut r = TaskRegistry::new();
    scan(&mut r, &[("/v/a.md", "- [ ] one\n")]);
    let t = r.all_tasks()[0].clone();
    assert_eq!(r.get(&t.id), Some(&t));
    assert!(r.get("nope").is_none());
}

#[test]
fn all_tasks_orders_by_path_components_then_line() {
    let mut r = TaskRegistry::new();
    scan(
        &mut r,
        &[
            ("/v/a-b/c.md", "- [ ] ab\n"),
            ("/v/a/z.md", "- [ ] a1\nx\n- [ ] a3\n"),
            ("/v/b.md", "- [ ] b\n"),
        ],
    );
    let names: Vec<_> = r.all_tasks().iter().map(|t| (t.text.clone(), t.line_number)).collect();
    assert_eq!(
        names,
        vec![("a1".to_string(), 1), ("a3".to_string(), 3), ("ab".to_string(), 1), ("b".to_string(), 1)]
    );
}

#[test]
fn markdown_targets_and_ignore_rules() {
    assert!(is_markdown_target("/v/a.md"));
    assert!(is_markdown_target("/v/A.MD"));
    assert!(is_markdown_target("/v/notes.Markdown"));
    assert!(!is_markdown_target("/v/notes.txt"));
    assert!(!is_markdown_target("/v/README"));
    assert!(!is_markdown_target("/v/.git/x.md"));
    assert!(!is_not_ignored("/v/~lock.md"));
    assert!(!is_not_ignored("/v/draft.md~"));
    assert!(!is_not_ignored("/v/a.md.swp"));
    assert!(!is_not_ignored("/v/a.tmp"));
    assert!(!is_not_ignored("/v/.floaty-todo.json"));
    assert!(!is_not_ignored("/v/.trash/a.md"));
    assert!(is_not_ignored("/v/.gitignore.md"));
    assert!(is_not_ignored("/v/my.git/a.md"));
}

#[test]
fn refreshing_the_same_content_twice_changes_nothing() {
    let mut r = TaskRegistry::new();
    scan(&mut r, &[("/v/a.md", "- [ ] one\n- [x] two\n"), ("/v/b.md", "- [ ] three\n")]);
    let first = r.all_tasks();
    scan(&mut r, &[("/v/a.md", "- [ ] one\n- [x] two\n")]);
    assert_eq!(r.all_tasks(), first);
}

#[test]
fn only_lowercase_markdown_extensions_match_after_lowering() {
    assert!(is_markdown_extension("md"));
    assert!(is_markdown_extension("markdown"));
    assert!(!is_markdown_extension("MD"));
    assert!(!is_markdown_extension("mdx"));
    assert!(!is_markdown_extension(""));
}
