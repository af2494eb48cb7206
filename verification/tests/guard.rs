//! Tests of the kill guard, its error taxonomy, and the report messages.

use port_watch::kill::{
    evaluate_kill_guard, finish_kill, kill_pid_report, kill_success_message, names_match,
    normalize_non_empty_name, plan_kill, posix_kill_signal, success_label, KillError, KillMode,
    KillRequest, KillResultKind, KillStep,
};

#[test]
fn names_match_is_trimmed_and_case_insensitive() {
    assert!(names_match(" Node ", "node"));
    assert!(names_match("Vite", "vite"));
    assert!(!names_match("node", "java"));
}

#[test]
fn normalize_non_empty_name_trims_and_drops_blank() {
    assert_eq!(normalize_non_empty_name("  node  "), Some("node".to_string()));
    assert_eq!(normalize_non_empty_name("   "), None);
    assert_eq!(normalize_non_empty_name(""), None);
}

#[test]
fn evaluate_kill_guard_blocks_mismatch_without_override() {
    let result = evaluate_kill_guard(123, "node", Some("java".to_string()), false);
    assert_eq!(
        result.unwrap_err(),
        KillError::GuardMismatch {
            expected: "node".to_string(),
            actual: Some("java".to_string()),
        }
    );
}

#[test]
fn evaluate_kill_guard_returns_warning_when_mismatch_override_enabled() {
    let warning = evaluate_kill_guard(123, "node", Some("java".to_string()), true)
        .unwrap()
        .unwrap();
    assert!(warning.contains("강행"));
    assert!(warning.contains("expected='node'"));
}

#[test]
fn evaluate_kill_guard_blocks_lookup_failure_without_override() {
    let result = evaluate_kill_guard(9876, "node", None, false);
    assert_eq!(result.unwrap_err(), KillError::LookupFailed { pid: 9876 });
}

#[test]
fn evaluate_kill_guard_allows_lookup_failure_with_override() {
    let warning = evaluate_kill_guard(9876, "node", None, true).unwrap().unwrap();
    assert!(warning.contains("조회 실패"));
    assert!(warning.contains("9876"));
}

#[test]
fn evaluate_kill_guard_warning_text_is_exact() {
    let warning = evaluate_kill_guard(123, "node", Some("java".to_string()), true)
        .unwrap()
        .unwrap();
    assert_eq!(
        warning,
        "프로세스명 불일치 상태로 강행합니다. expected='node', actual='java'"
    );
    let warning = evaluate_kill_guard(9876, "node", None, true).unwrap().unwrap();
    assert_eq!(warning, "PID 9876 프로세스명 조회 실패 상태로 강행합니다.");
}

#[test]
fn evaluate_kill_guard_passes_matching_name_silently() {
    let result = evaluate_kill_guard(42, " Node ", Some("node".to_string()), false);
    assert_eq!(result.unwrap(), None);
}

#[test]
fn plan_kill_rejects_pid_zero_whatever_the_settings() {
    let requests = vec![
        KillRequest { pid: 0, mode: KillMode::Soft, expected_process_name: None, allow_mismatch: false },
        KillRequest { pid: 0, mode: KillMode::Force, expected_process_name: None, allow_mismatch: true },
        KillRequest {
            pid: 0,
            mode: KillMode::Soft,
            expected_process_name: Some("node".to_string()),
            allow_mismatch: true,
        },
    ];
    for request in requests {
        match plan_kill(&request) {
            KillStep::Reject(KillError::InvalidPid) => {}
            other => panic!("pid 0 must be rejected as invalid, got {:?}", other),
        }
    }
}

#[test]
fn plan_kill_skips_guard_for_missing_or_blank_name() {
    let request = KillRequest {
        pid: 7,
        mode: KillMode::Soft,
        expected_process_name: None,
        allow_mismatch: false,
    };
    assert!(matches!(plan_kill(&request), KillStep::Execute));
    let request = KillRequest {
        pid: 7,
        mode: KillMode::Soft,
        expected_process_name: Some("   ".to_string()),
        allow_mismatch: false,
    };
    assert!(matches!(plan_kill(&request), KillStep::Execute));
}

#[test]
fn plan_kill_looks_up_trimmed_expected_name() {
    let request = KillRequest {
        pid: 7,
        mode: KillMode::Soft,
        expected_process_name: Some("  node ".to_string()),
        allow_mismatch: false,
    };
    match plan_kill(&request) {
        KillStep::Lookup(name) => assert_eq!(name, "node"),
        other => panic!("expected a lookup step, got {:?}", other),
    }
}

#[test]
fn finish_kill_combines_warning_and_command_outcome() {
    assert_eq!(finish_kill(None, Ok(())), Ok(KillResultKind::Killed));
    assert_eq!(
        finish_kill(Some("careful".to_string()), Ok(())),
        Ok(KillResultKind::KilledWithWarning("careful".to_string()))
    );
    assert_eq!(
        finish_kill(None, Err("kill failed: no such process".to_string())),
        Err(KillError::CommandFailed("kill failed: no such process".to_string()))
    );
}

#[test]
fn kill_error_codes_are_stable() {
    assert_eq!(KillError::InvalidPid.code(), "INVALID_PID");
    assert_eq!(KillError::LookupFailed { pid: 3 }.code(), "BLOCKED_LOOKUP");
    assert_eq!(
        KillError::GuardMismatch { expected: "a".to_string(), actual: None }.code(),
        "BLOCKED_MISMATCH"
    );
    assert_eq!(KillError::CommandFailed("x".to_string()).code(), "COMMAND_FAILED");
}

#[test]
fn kill_error_messages_carry_their_facts() {
    assert_eq!(KillError::InvalidPid.message(), "잘못된 PID입니다.");
    let m = KillError::LookupFailed { pid: 4321 }.message();
    assert!(m.contains("4321"));
    let m = KillError::GuardMismatch {
        expected: "node".to_string(),
        actual: Some("java".to_string()),
    }
    .message();
    assert!(m.contains("expected='node'"));
    assert!(m.contains("actual='java'"));
    let m = KillError::GuardMismatch { expected: "node".to_string(), actual: None }.message();
    assert!(m.contains("expected='node'"));
    assert!(!m.contains("actual="));
    assert_eq!(KillError::CommandFailed("detail".to_string()).message(), "detail");
}

#[test]
fn success_label_depends_on_mode() {
    assert_eq!(success_label(KillMode::Soft), "killed");
    assert_eq!(success_label(KillMode::Force), "force-killed");
}

#[test]
fn posix_kill_signal_depends_on_mode() {
    assert_eq!(posix_kill_signal(KillMode::Soft), "-TERM");
    assert_eq!(posix_kill_signal(KillMode::Force), "-KILL");
}

#[test]
fn kill_pid_report_formats_both_outcomes() {
    let ok = kill_pid_report(88, KillMode::Force, Ok(KillResultKind::Killed)).unwrap();
    assert_eq!(ok, "force-killed pid 88");
    let err = kill_pid_report(88, KillMode::Soft, Err(KillError::InvalidPid)).unwrap_err();
    assert_eq!(err, "잘못된 PID입니다.");
}

#[test]
fn kill_success_message_includes_warning_when_present() {
    let msg = kill_success_message(
        1234,
        KillMode::Soft,
        &KillResultKind::KilledWithWarning("mismatch".to_string()),
    );
    assert!(msg.contains("pid 1234"));
    assert!(msg.contains("mismatch"));
}

#[test]
fn kill_success_message_without_warning_is_plain() {
    let msg = kill_success_message(55, KillMode::Force, &KillResultKind::Killed);
    assert_eq!(msg, "강제 종료 완료: pid 55");
}
