use floaty_todo::hotkeys::{key_outcome, needs_rollback, KeyOutcome};

#[test]
fn outcome_reports_each_key() {
    assert_eq!(key_outcome(&None, Err("ignored".into())), KeyOutcome { ok: true, accelerator: None, error: None });
    assert_eq!(
        key_outcome(&Some("Ctrl+K".into()), Ok(())),
        KeyOutcome { ok: true, accelerator: Some("Ctrl+K".into()), error: None }
    );
    assert_eq!(
        key_outcome(&Some("Ctrl+K".into()), Err("taken".into())),
        KeyOutcome { ok: false, accelerator: Some("Ctrl+K".into()), error: Some("taken".into()) }
    );
}

#[test]
fn rollback_only_after_a_failed_rebind() {
    assert!(needs_rollback(&Some("A".into()), &Some("B".into()), &Err("x".into())));
    assert!(!needs_rollback(&None, &Some("B".into()), &Err("x".into())));
    assert!(!needs_rollback(&Some("A".into()), &Some("B".into()), &Ok(())));
}
