//! Tests of the socket- and process-listing parsers.

use port_watch::sockets::{
    parse_pid_from_ss_process, parse_port_from_addr, parse_ss_listening_pid_map,
    parse_tasklist_first_name, parse_windows_netstat_listening_pid_map,
};

#[test]
fn parse_windows_netstat_uses_listening_only_and_first_pid() {
    let sample = "\
  Proto  Local Address          Foreign Address        State           PID\n\
  TCP    0.0.0.0:3000           0.0.0.0:0              LISTENING       111\n\
  TCP    127.0.0.1:3000         127.0.0.1:54000        ESTABLISHED     222\n\
  TCP    [::]:8080              [::]:0                 LISTENING       333\n\
  TCP    0.0.0.0:8080           0.0.0.0:0              LISTENING       444\n";

    let map = parse_windows_netstat_listening_pid_map(sample);
    assert_eq!(map.get(&3000), Some(&111));
    assert_eq!(map.get(&8080), Some(&333));
}

#[test]
fn parse_windows_netstat_state_is_case_insensitive() {
    let sample = "  TCP    0.0.0.0:5173           0.0.0.0:0              listening       777\n";
    let map = parse_windows_netstat_listening_pid_map(sample);
    assert_eq!(map.get(&5173), Some(&777));
}

#[test]
fn parse_windows_netstat_drops_zero_pids_and_short_rows() {
    let sample = "\
  TCP    0.0.0.0:3000           0.0.0.0:0              LISTENING       0\n\
  TCP    0.0.0.0:3001           LISTENING\n";
    let map = parse_windows_netstat_listening_pid_map(sample);
    assert!(map.is_empty());
}

#[test]
fn parse_port_from_addr_works() {
    assert_eq!(parse_port_from_addr("0.0.0.0:8080"), Some(8080));
    assert_eq!(parse_port_from_addr("*:5173"), Some(5173));
    assert_eq!(parse_port_from_addr("[::]:4200"), Some(4200));
    assert_eq!(parse_port_from_addr("invalid"), None);
}

#[test]
fn parse_port_from_addr_edges() {
    assert_eq!(parse_port_from_addr(""), None);
    assert_eq!(parse_port_from_addr("127.0.0.1:"), None);
    assert_eq!(parse_port_from_addr("127.0.0.1:70000"), None);
    assert_eq!(parse_port_from_addr("[fe80::1]:443"), Some(443));
}

#[test]
fn parse_pid_from_ss_process_works() {
    let input = r#"users:((\"node\",pid=12345,fd=23))"#;
    assert_eq!(parse_pid_from_ss_process(input), Some(12345));
}

#[test]
fn parse_pid_from_ss_process_needs_digits() {
    assert_eq!(parse_pid_from_ss_process("users:((\"node\",pid=,fd=23))"), None);
    assert_eq!(parse_pid_from_ss_process("no marker here"), None);
    assert_eq!(parse_pid_from_ss_process("pid=77rest"), Some(77));
}

#[test]
fn parse_ss_listing_skips_header_and_keeps_first_pid() {
    let sample = "\
State   Recv-Q  Send-Q  Local Address:Port  Peer Address:Port  Process\n\
LISTEN  0       511     0.0.0.0:3000        0.0.0.0:*          users:((\"node\",pid=111,fd=23))\n\
LISTEN  0       511     [::]:3000           [::]:*             users:((\"node\",pid=222,fd=24))\n\
LISTEN  0       128     127.0.0.1:8080      0.0.0.0:*          users:((\"java\",pid=333,fd=7))\n";
    let map = parse_ss_listening_pid_map(sample);
    assert_eq!(map.get(&3000), Some(&111));
    assert_eq!(map.get(&8080), Some(&333));
}

#[test]
fn parse_ss_listing_drops_rows_without_pid() {
    let sample = "\
State   Recv-Q  Send-Q  Local Address:Port  Peer Address:Port  Process\n\
LISTEN  0       511     0.0.0.0:3000        0.0.0.0:*\n";
    let map = parse_ss_listening_pid_map(sample);
    assert!(map.is_empty());
}

#[test]
fn tasklist_name_takes_first_csv_field_unquoted() {
    let out = "\"node.exe\",\"1234\",\"Console\",\"1\",\"50,000 K\"\n";
    assert_eq!(parse_tasklist_first_name(out), Some("node.exe".to_string()));
}

#[test]
fn tasklist_name_handles_failures_softly() {
    assert_eq!(parse_tasklist_first_name(""), None);
    assert_eq!(parse_tasklist_first_name("INFO: No tasks are running.\n"), None);
    assert_eq!(parse_tasklist_first_name("\"\",rest\n"), None);
}
