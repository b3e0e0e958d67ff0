use floaty_todo::shell::{
    join_labels, ps_escaped, build_terminal_attempts, terminal_failed_message, vscode_failed_message, vscode_program, Platform,
};

#[test]
fn terminal_attempts_are_platform_correct() {
    let attempts = build_terminal_attempts("/tmp", Platform::Other);
    assert!(!attempts.is_empty());
    let labels: Vec<_> = attempts.iter().map(|a| a.label.clone()).collect();
    assert!(labels.contains(&"x-terminal-emulator".to_string()));
    assert_eq!(attempts[0].current_dir.as_deref(), Some("/tmp"));

    let win = build_terminal_attempts("C:\\tmp", Platform::Windows);
    let labels: Vec<_> = win.iter().map(|a| a.label.clone()).collect();
    assert_eq!(labels[0], "wt.exe");
    assert!(labels.contains(&"pwsh.exe".to_string()));
    assert!(labels.contains(&"powershell.exe".to_string()));
    assert_eq!(win[0].args, vec!["-d".to_string(), "C:\\tmp".to_string()]);

    let mac = build_terminal_attempts("/tmp", Platform::MacOs);
    assert_eq!(mac[0].label, "open -a Terminal");
    assert_eq!(mac[0].args, vec!["-a".to_string(), "Terminal".to_string(), "/tmp".to_string()]);
}

#[test]
fn powershell_path_is_quoted() {
    assert_eq!(ps_escaped("it's"), "it''s");
    let win = build_terminal_attempts("C:\\o'k", Platform::Windows);
    assert_eq!(win[2].args[2], "Set-Location -LiteralPath 'C:\\o''k'");
}

#[test]
fn open_vscode_returns_helpful_error_when_missing() {
    assert_eq!(vscode_program(Platform::Windows), "code.cmd");
    assert_eq!(vscode_program(Platform::Other), "code");
    let m = vscode_failed_message(&vec!["code".to_string()]);
    assert_eq!(
        m,
        "could not launch VS Code (tried: code). Install VS Code and run \"Shell Command: Install 'code' command in PATH\" from its command palette."
    );
}

#[test]
fn terminal_failure_lists_what_was_tried() {
    assert_eq!(join_labels(&vec![]), "");
    assert_eq!(
        terminal_failed_message(&vec!["konsole".to_string(), "xterm".to_string()]),
        "could not launch terminal (tried: konsole, xterm)"
    );
}
