use floaty_todo::error::AppError;
use floaty_todo::parser::parse_content;
use floaty_todo::storage::{
    append_task_content, append_to_quadrant_content, insert_line_at, line_hash, remove_task_line, replace_first_bracket,
    toggle_content, update_text_content,
};
use floaty_todo::types::Quadrant;

const P: &str = "/v/a.md";

#[test]
fn toggle_unchecked_to_checked() {
    let got = toggle_content("- [ ] hello\n- [ ] world\n", 1, P).unwrap();
    assert_eq!(got, "- [x] hello\n- [ ] world\n");
}

#[test]
fn toggle_checked_to_unchecked() {
    assert_eq!(toggle_content("- [x] hello\n", 1, P).unwrap(), "- [ ] hello\n");
}

#[test]
fn toggle_preserves_other_lines_byte_for_byte() {
    let original = "# h\n\n- [ ] one\n- [ ] two\nrandom\n";
    let got = toggle_content(original, 4, P).unwrap();
    assert_eq!(got, "# h\n\n- [ ] one\n- [x] two\nrandom\n");
}

#[test]
fn toggle_preserves_crlf_line_endings() {
    let got = toggle_content("- [ ] one\r\n- [ ] two\r\n", 1, P).unwrap();
    assert_eq!(got, "- [x] one\r\n- [ ] two\r\n");
}

#[test]
fn toggle_non_task_line_errors() {
    assert!(toggle_content("# heading\n", 1, P).is_err());
    match toggle_content("# heading\n", 1, P) {
        Err(AppError::NotATaskLine { path, line }) => {
            assert_eq!(path, P);
            assert_eq!(line, 1);
        }
        other => panic!("unexpected: {:?}", other),
    }
    assert!(matches!(toggle_content("- [ ] a\n", 0, P), Err(AppError::NotATaskLine { .. })));
    assert!(matches!(toggle_content("- [ ] a\n", 2, P), Err(AppError::NotATaskLine { .. })));
}

#[test]
fn toggle_twice_restores_the_line() {
    let original = "x\n  * [ ] task\r\ny\n";
    let once = toggle_content(original, 2, P).unwrap();
    assert_eq!(once, "x\n  * [x] task\r\ny\n");
    assert_eq!(toggle_content(&once, 2, P).unwrap(), original);
}

#[test]
fn append_to_existing_file() {
    assert_eq!(append_task_content("# Inbox\n\n- [ ] one\n", "two"), "# Inbox\n\n- [ ] one\n- [ ] two\n");
}

#[test]
fn append_creates_file_with_header() {
    assert_eq!(append_task_content("", "first"), "# Inbox\n\n- [ ] first\n");
}

#[test]
fn append_handles_missing_trailing_newline() {
    assert_eq!(append_task_content("- [ ] one", "two"), "- [ ] one\n- [ ] two\n");
}

#[test]
fn append_trims_and_reads_back_as_last_task() {
    let out = append_task_content("- [ ] a\n", "  new task  ");
    assert_eq!(out, "- [ ] a\n- [ ] new task\n");
    let tasks = parse_content(&out, P, "s");
    assert_eq!(tasks.last().unwrap().text, "new task");
    assert!(!tasks.last().unwrap().completed);
    assert_eq!(tasks.last().unwrap().line_number, 2);
}

#[test]
fn update_replaces_only_text() {
    let got = update_text_content("- [ ] hello world\n- [ ] keep me\n", 1, "goodbye world", P).unwrap();
    assert_eq!(got, "- [ ] goodbye world\n- [ ] keep me\n");
}

#[test]
fn update_preserves_indent_and_completed_state() {
    let got = update_text_content("    * [x] indented done task\n", 1, "new content", P).unwrap();
    assert_eq!(got, "    * [x] new content\n");
}

#[test]
fn update_preserves_crlf_line_endings() {
    let got = update_text_content("- [ ] one\r\n- [ ] two\r\n", 2, "TWO!", P).unwrap();
    assert_eq!(got, "- [ ] one\r\n- [ ] TWO!\r\n");
}

#[test]
fn update_rejects_empty_and_multiline() {
    match update_text_content("- [ ] hi\n", 1, "   ", P) {
        Err(AppError::CommandFailed(m)) => assert_eq!(m, "task text cannot be empty"),
        other => panic!("unexpected: {:?}", other),
    }
    match update_text_content("- [ ] hi\n", 1, "a\nb", P) {
        Err(AppError::CommandFailed(m)) => assert_eq!(m, "task text cannot contain newlines"),
        other => panic!("unexpected: {:?}", other),
    }
}

#[test]
fn update_non_task_line_errors() {
    assert!(update_text_content("# heading\n", 1, "anything", P).is_err());
    assert!(matches!(update_text_content("# heading\n", 1, "anything", P), Err(AppError::NotATaskLine { .. })));
}

#[test]
fn append_to_existing_quadrant_inserts_before_next_header() {
    let original = "## 🔴 Urgent\n- [ ] a\n\n## 🟡 Important\n- [ ] b\n";
    let got = append_to_quadrant_content(original, "new", Some(Quadrant::UrgentImportant), true).unwrap();
    assert_eq!(got, "## 🔴 Urgent\n- [ ] a\n- [ ] new\n\n## 🟡 Important\n- [ ] b\n");
}

#[test]
fn append_to_last_quadrant_appends_at_eof() {
    let got = append_to_quadrant_content("## 🟢 Later\n- [ ] x\n", "y", Some(Quadrant::NotUrgentNotImportant), true).unwrap();
    assert_eq!(got, "## 🟢 Later\n- [ ] x\n- [ ] y\n");
}

#[test]
fn append_to_missing_quadrant_creates_header_when_allowed() {
    let got = append_to_quadrant_content("# Notes\n- [ ] keep\n", "n", Some(Quadrant::UrgentImportant), true).unwrap();
    assert_eq!(got, "# Notes\n- [ ] keep\n\n## 🔴 紧急+重要\n\n- [ ] n\n");
}

#[test]
fn append_to_missing_quadrant_errors_when_disallowed() {
    let err = append_to_quadrant_content("# Notes\n", "n", Some(Quadrant::UrgentImportant), false);
    assert!(matches!(err, Err(AppError::QuadrantHeaderMissing(Quadrant::UrgentImportant))));
}

#[test]
fn append_quadrant_none_falls_back_to_append_task() {
    let got = append_to_quadrant_content("- [ ] one\n", "two", None, true).unwrap();
    assert_eq!(got, "- [ ] one\n- [ ] two\n");
}

#[test]
fn append_to_quadrant_handles_file_not_ending_in_newline() {
    let got = append_to_quadrant_content("- [ ] tail", "z", Some(Quadrant::UrgentImportant), true).unwrap();
    assert_eq!(got, "- [ ] tail\n\n## 🔴 紧急+重要\n\n- [ ] z\n");
}

#[test]
fn appended_quadrant_task_reads_back_in_its_quadrant() {
    let got = append_to_quadrant_content("# Notes\n", "n", Some(Quadrant::NotUrgentImportant), true).unwrap();
    let tasks = parse_content(&got, P, "s");
    assert_eq!(tasks.len(), 1);
    assert_eq!(tasks[0].text, "n");
    assert_eq!(tasks[0].quadrant, Some(Quadrant::NotUrgentImportant));
}

#[test]
fn replace_first_bracket_changes_only_the_mark() {
    assert_eq!(replace_first_bracket("- [ ] a [ ] b", 'x'), "- [x] a [ ] b");
    assert_eq!(replace_first_bracket("no box", 'x'), "no box");
}

#[test]
fn line_hash_is_prefixed_sha256() {
    assert_eq!(
        line_hash(""),
        "sha256:e3b0c44298fc1c149afbf4c8996fb92427ae41e4649b934ca495991b7852b855"
    );
}

#[test]
fn remove_then_insert_restores_a_line() {
    let original = "- [ ] keep\n- [ ] gone\n- [ ] tail\n";
    let removed = remove_task_line(original, 2, P).unwrap();
    assert_eq!(removed.content, "- [ ] keep\n- [ ] tail\n");
    assert_eq!(removed.removed.raw, "- [ ] gone\n");
    assert_eq!(removed.removed.line, 2);
    assert_eq!(removed.removed.hash, line_hash("- [ ] gone\n"));
    let st = removed.removed.state.unwrap();
    assert_eq!(st.text, "gone");
    assert!(!st.done);
    assert_eq!(insert_line_at(&removed.content, 2, &removed.removed.raw), original);
    assert!(matches!(remove_task_line("text\n", 1, P), Err(AppError::NotATaskLine { .. })));
}

#[test]
fn update_reads_back_with_new_text_only() {
    let original = "## 🟡 Soon\n* [x] old text\r\n- [ ] other\n";
    let out = update_text_content(original, 2, "  new text ", P).unwrap();
    let before = parse_content(original, P, "s");
    let after = parse_content(&out, P, "s");
    assert_eq!(after.len(), before.len());
    assert_eq!(after[0].text, "new text");
    assert_eq!(after[0].completed, before[0].completed);
    assert_eq!(after[0].quadrant, before[0].quadrant);
    assert_eq!(after[0].line_number, 2);
    assert_eq!(after[1], before[1]);
}

#[test]
fn toggle_reads_back_flipped() {
    let original = "- [ ] a\n  - [X] b\n- [ ] c\n";
    let out = toggle_content(original, 2, P).unwrap();
    let before = parse_content(original, P, "s");
    let after = parse_content(&out, P, "s");
    assert!(before[1].completed);
    assert!(!after[1].completed);
    assert_eq!(after[1].text, before[1].text);
    assert_eq!(after[0], before[0]);
    assert_eq!(after[2], before[2]);
}

#[test]
fn task_added_to_existing_section_reads_back_in_it() {
    let original = "# Plan\n## 🟠 Delegate\n- [ ] a\n### details\n- [ ] b\n\n## 🟢 Later\n- [ ] z";
    let out = append_to_quadrant_content(original, "new", Some(Quadrant::UrgentNotImportant), false).unwrap();
    let tasks = parse_content(&out, P, "s");
    let added = tasks.iter().find(|t| t.text == "new").unwrap();
    assert_eq!(added.quadrant, Some(Quadrant::UrgentNotImportant));
    assert_eq!(added.line_number, 6);
    let out2 = append_to_quadrant_content(original, "late", Some(Quadrant::NotUrgentNotImportant), false).unwrap();
    assert!(out2.ends_with("- [ ] z\n- [ ] late\n"));
    let tasks2 = parse_content(&out2, P, "s");
    assert_eq!(tasks2.last().unwrap().quadrant, Some(Quadrant::NotUrgentNotImportant));
}
