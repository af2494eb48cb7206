//! Tests of scan-row assembly, filtering, and the display helpers.

use port_watch::ports::resolve_ports_expr;
use port_watch::ports::DEFAULT_PORTS_EXPR;
use port_watch::report::{localize_detail, short_detail};
use port_watch::scan::{
    assemble_rows, count_open, effective_timeout_ms, filter_rows, is_local_host,
    port_status_from_probe, probe_target, PortStatus, ProbeOutcome, ProbeRecord,
};

fn row(port: u16, open: bool) -> PortStatus {
    PortStatus {
        port,
        open,
        pid: None,
        process_name: None,
        message: String::new(),
    }
}

#[test]
fn localize_detail_maps_common_messages() {
    assert_eq!(
        localize_detail("Connection refused (os error 111)"),
        "연결 거부됨"
    );
    assert_eq!(localize_detail("Connection timed out"), "연결 시간 초과");
    assert_eq!(localize_detail("invalid address: x"), "잘못된 주소 형식");
}

#[test]
fn localize_detail_keeps_unknown_messages() {
    assert_eq!(localize_detail("something odd"), "something odd");
    assert_eq!(localize_detail("connection succeeded"), "연결 성공");
    assert_eq!(localize_detail("No route to host"), "호스트 경로 없음");
    assert_eq!(localize_detail("Network is unreachable"), "네트워크에 도달할 수 없음");
    assert_eq!(localize_detail("Permission denied"), "권한 거부됨");
}

#[test]
fn filter_rows_applies_open_only() {
    let rows = vec![row(3000, true), row(3001, false)];
    assert_eq!(filter_rows(rows.clone(), false).len(), 2);
    let filtered = filter_rows(rows, true);
    assert_eq!(filtered.len(), 1);
    assert_eq!(filtered[0].port, 3000);
}

#[test]
fn count_open_counts_only_open_rows() {
    let rows = vec![row(1, true), row(2, false), row(3, true)];
    assert_eq!(count_open(&rows), 2);
    assert_eq!(count_open(&Vec::new()), 0);
}

#[test]
fn short_detail_truncates_long_messages() {
    assert_eq!(short_detail("short"), "short");
    let long = "x".repeat(60);
    let cut = short_detail(&long);
    assert_eq!(cut.chars().count(), 48);
    assert!(cut.ends_with("..."));
    assert!(cut.starts_with("xxx"));
}

#[test]
fn effective_timeout_has_a_floor() {
    assert_eq!(effective_timeout_ms(0), 50);
    assert_eq!(effective_timeout_ms(49), 50);
    assert_eq!(effective_timeout_ms(300), 300);
}

#[test]
fn is_local_host_accepts_the_loopback_spellings() {
    assert!(is_local_host("127.0.0.1"));
    assert!(is_local_host(" LocalHost "));
    assert!(is_local_host("::1"));
    assert!(!is_local_host("example.com"));
    assert!(!is_local_host("192.168.0.1"));
}

#[test]
fn probe_target_joins_host_and_port() {
    assert_eq!(probe_target("127.0.0.1", 8080), "127.0.0.1:8080");
}

#[test]
fn port_status_from_probe_fills_each_case() {
    let open = port_status_from_probe(
        "127.0.0.1",
        3000,
        ProbeOutcome::Connected,
        Some(42),
        Some("node".to_string()),
    );
    assert!(open.open);
    assert_eq!(open.pid, Some(42));
    assert_eq!(open.process_name, Some("node".to_string()));
    assert_eq!(open.message, "connection succeeded");

    let anonymous = port_status_from_probe("127.0.0.1", 3000, ProbeOutcome::Connected, None, None);
    assert!(anonymous.open);
    assert_eq!(anonymous.pid, None);
    assert_eq!(anonymous.process_name, None);

    let refused = port_status_from_probe(
        "127.0.0.1",
        3001,
        ProbeOutcome::ConnectFailed("Connection refused (os error 111)".to_string()),
        None,
        None,
    );
    assert!(!refused.open);
    assert_eq!(refused.message, "Connection refused (os error 111)");

    let bad = port_status_from_probe("bad host", 3002, ProbeOutcome::InvalidAddress, None, None);
    assert!(!bad.open);
    assert_eq!(bad.message, "invalid address: bad host:3002");
}

#[test]
fn assemble_rows_keeps_probe_order() {
    let records = vec![
        ProbeRecord {
            port: 8080,
            outcome: ProbeOutcome::Connected,
            pid: Some(7),
            process_name: Some("node".to_string()),
        },
        ProbeRecord {
            port: 3000,
            outcome: ProbeOutcome::ConnectFailed("Connection refused".to_string()),
            pid: None,
            process_name: None,
        },
        ProbeRecord {
            port: 4200,
            outcome: ProbeOutcome::InvalidAddress,
            pid: None,
            process_name: None,
        },
    ];
    let rows = assemble_rows("h", records);
    assert_eq!(rows.len(), 3);
    assert_eq!(rows[0].port, 8080);
    assert!(rows[0].open);
    assert_eq!(rows[1].port, 3000);
    assert_eq!(rows[1].message, "Connection refused");
    assert_eq!(rows[2].port, 4200);
    assert_eq!(rows[2].message, "invalid address: h:4200");
}

#[test]
fn resolve_ports_expr_prefers_explicit_expression() {
    assert_eq!(
        resolve_ports_expr(Some("80".to_string()), true),
        Some("80".to_string())
    );
    assert_eq!(
        resolve_ports_expr(None, true),
        Some(DEFAULT_PORTS_EXPR.to_string())
    );
    assert_eq!(resolve_ports_expr(None, false), None);
}
