use floaty_todo::parser::{decimal, detect_quadrant, parse_bytes, parse_content, parse_line, task_id};
use floaty_todo::types::{short_id_of, Quadrant};

#[test]
fn parse_unchecked_task() {
    let p = parse_line("- [ ] hello").unwrap();
    assert_eq!(p.text, "hello");
    assert!(!p.completed);
    assert_eq!(p.indent, 0);
}

#[test]
fn parse_checked_task() {
    let p = parse_line("- [x] done").unwrap();
    assert!(p.completed);
    assert_eq!(p.text, "done");
}

#[test]
fn parse_uppercase_x() {
    assert!(parse_line("- [X] done").unwrap().completed);
}

#[test]
fn parse_alt_bullets() {
    assert!(parse_line("* [ ] a").is_some());
    assert!(parse_line("+ [ ] b").is_some());
}

#[test]
fn parse_indent_in_spaces() {
    let p = parse_line("    - [ ] indented").unwrap();
    assert_eq!(p.indent, 4);
}

#[test]
fn ignores_non_task_lines() {
    assert!(parse_line("# heading").is_none());
    assert!(parse_line("- not a task").is_none());
    assert!(parse_line("- [ ]no space after bracket").is_none());
    assert!(parse_line("").is_none());
}

#[test]
fn trims_trailing_whitespace() {
    let p = parse_line("- [ ] hello   ").unwrap();
    assert_eq!(p.text, "hello");
}

const ABS: &str = "/notes/tasks.md";

#[test]
fn parse_file_returns_tasks_with_line_numbers() {
    let tasks = parse_bytes(b"# title\n- [ ] one\nrandom line\n- [x] two\n", ABS, "test-src");
    assert_eq!(tasks.len(), 2);
    assert_eq!(tasks[0].text, "one");
    assert_eq!(tasks[0].line_number, 2);
    assert_eq!(tasks[1].text, "two");
    assert_eq!(tasks[1].line_number, 4);
    assert!(tasks[1].completed);
}

#[test]
fn parse_file_strips_utf8_bom() {
    let mut bytes = vec![0xEF, 0xBB, 0xBF];
    bytes.extend_from_slice(b"- [ ] bom task\n");
    let tasks = parse_bytes(&bytes, ABS, "test-src");
    assert_eq!(tasks.len(), 1);
    assert_eq!(tasks[0].text, "bom task");
    assert_eq!(tasks[0].line_number, 1);
}

#[test]
fn stable_id_for_same_file_and_line() {
    let a = parse_bytes(b"- [ ] x\n", ABS, "test-src");
    let b = parse_bytes(b"- [ ] x\n", ABS, "test-src");
    assert_eq!(a[0].id, b[0].id);
}

#[test]
fn task_carries_source_id() {
    let tasks = parse_bytes(b"- [ ] x\n", ABS, "my-source");
    assert_eq!(tasks[0].source_id, "my-source");
}

#[test]
fn task_id_hashes_path_and_line() {
    let id = task_id(ABS, 12);
    assert_eq!(id, short_id_of("/notes/tasks.md:12"));
    assert_eq!(id.len(), 16);
    assert_ne!(task_id(ABS, 1), task_id(ABS, 2));
    let tasks = parse_content("a\n- [ ] x\n", ABS, "s");
    assert_eq!(tasks[0].id, task_id(ABS, 2));
    assert_eq!(tasks[0].source_file, ABS);
}

#[test]
fn decimal_writes_digits() {
    assert_eq!(decimal(0), "0");
    assert_eq!(decimal(7), "7");
    assert_eq!(decimal(10), "10");
    assert_eq!(decimal(4096), "4096");
}

#[test]
fn parse_line_keeps_inner_text_and_tabs() {
    let p = parse_line("\t* [ ]   buy  milk \t").unwrap();
    assert_eq!(p.indent, 1);
    assert_eq!(p.text, "buy  milk");
    assert!(parse_line("- [y] no").is_none());
    assert!(parse_line("-[ ] no").is_none());
}

#[test]
fn parse_file_quadrant_basic() {
    let tasks = parse_content("## 🔴 Urgent\n- [ ] a\n", ABS, "s");
    assert_eq!(tasks.len(), 1);
    assert_eq!(tasks[0].quadrant, Some(Quadrant::UrgentImportant));
}

#[test]
fn parse_file_quadrant_inheritance() {
    let tasks = parse_content("## 🔴 X\n### sub\n- [ ] a\n", ABS, "s");
    assert_eq!(tasks[0].quadrant, Some(Quadrant::UrgentImportant));
    assert_eq!(tasks[0].line_number, 3);
}

#[test]
fn parse_file_quadrant_missing() {
    let tasks = parse_content("- [ ] a\n## notes\n- [ ] b\n", ABS, "s");
    assert_eq!(tasks.len(), 2);
    assert_eq!(tasks[0].quadrant, None);
    assert_eq!(tasks[1].quadrant, None);
}

#[test]
fn parse_file_quadrant_any_header_level_and_emoji_anywhere() {
    let tasks = parse_content("# 🟢\n- [ ] a\n###### today 🟠 soon\n- [ ] b\n", ABS, "s");
    assert_eq!(tasks[0].quadrant, Some(Quadrant::NotUrgentNotImportant));
    assert_eq!(tasks[1].quadrant, Some(Quadrant::UrgentNotImportant));
}

#[test]
fn parse_file_quadrant_mixed_picks_first() {
    assert_eq!(detect_quadrant("🟡🔴 mixed"), Some(Quadrant::UrgentImportant));
    let tasks = parse_content("## 🔴🟡 mixed\n- [ ] a\n", ABS, "s");
    assert_eq!(tasks[0].quadrant, Some(Quadrant::UrgentImportant));
}

#[test]
fn parse_content_handles_crlf_and_missing_final_newline() {
    let tasks = parse_content("- [ ] a\r\n- [x] b", ABS, "s");
    assert_eq!(tasks.len(), 2);
    assert_eq!(tasks[0].text, "a");
    assert_eq!(tasks[1].text, "b");
    assert_eq!(tasks[1].line_number, 2);
}

#[test]
fn parse_bytes_replaces_invalid_utf8() {
    let tasks = parse_bytes(b"- [ ] caf\xff\n", ABS, "s");
    assert_eq!(tasks.len(), 1);
    assert_eq!(tasks[0].text, "caf\u{FFFD}");
}
