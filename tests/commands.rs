use cargo_merge_assist::commands::{
    append_unique_line, ensure_manifest_exists, merge_all_cmd, resolve_lock_cmd,
};

#[test]
fn missing_manifest_is_reported_with_the_root() {
    assert_eq!(ensure_manifest_exists("proj", true), Ok(()));
    assert_eq!(
        ensure_manifest_exists("proj", false),
        Err("proj does not contain Cargo.toml; pass --repo with a Rust project root".to_string())
    );
}

#[test]
fn lock_plan_generates_then_checks() {
    let plan = resolve_lock_cmd(".", true, true, false).unwrap();
    assert_eq!(
        plan,
        vec![
            vec!["generate-lockfile".to_string()],
            vec!["check".to_string(), "-q".to_string()],
        ]
    );
}

#[test]
fn lock_plan_offline_without_check() {
    let plan = resolve_lock_cmd(".", true, false, true).unwrap();
    assert_eq!(
        plan,
        vec![vec!["generate-lockfile".to_string(), "--offline".to_string()]]
    );
    assert!(resolve_lock_cmd("r", false, true, true).is_err());
}

#[test]
fn merge_all_carries_the_verify_choice() {
    let (text, verify) = merge_all_cmd("a = 1\n", "a = 2\n", "a = 1\n", false).unwrap();
    assert_eq!(text, "a = 2\n");
    assert!(verify);
    let (_, verify) = merge_all_cmd("a = 1\n", "a = 2\n", "a = 1\n", true).unwrap();
    assert!(!verify);
    let err = merge_all_cmd("a = 1\n", "a = 2\n", "a = 3\n", true).unwrap_err();
    assert_eq!(err.path, "a");
}

#[test]
fn attribute_line_is_appended_once() {
    let line = "Cargo.toml merge=cargo-merge-assist-manifest";
    assert_eq!(append_unique_line("", line), Some(format!("{line}\n")));
    assert_eq!(
        append_unique_line("*.rs text", line),
        Some(format!("*.rs text\n{line}\n"))
    );
    assert_eq!(
        append_unique_line("*.rs text\n", line),
        Some(format!("*.rs text\n{line}\n"))
    );
    assert_eq!(append_unique_line(&format!("a\n  {line}  \r\nb"), line), None);
}

#[test]
fn installing_a_line_twice_changes_nothing() {
    let line = "Cargo.lock merge=cargo-merge-assist-lock";
    let once = append_unique_line("*.rs text", line).unwrap();
    assert_eq!(append_unique_line(&once, line), None);
    let crlf = "x\r\nCargo.lock merge=cargo-merge-assist-lock\r\n";
    assert_eq!(append_unique_line(crlf, line), None);
}
