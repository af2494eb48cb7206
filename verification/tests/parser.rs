//! Tests of the strict port-expression parser.

use port_watch::ports::{parse_ports_expr_strict, DEFAULT_PORTS_EXPR, MAX_PORT_COUNT};

#[test]
fn parse_ports_expr_handles_list_and_range() {
    let got = parse_ports_expr_strict("8080, 3000-3002, 8080").unwrap();
    assert_eq!(got, vec![3000, 3001, 3002, 8080]);
}

#[test]
fn parse_ports_expr_returns_invalid_tokens() {
    let err = parse_ports_expr_strict("8080, nope, 3000-2x").unwrap_err();
    assert!(err.contains("invalid ports:"));
    assert!(err.contains("nope"));
    assert!(err.contains("3000-2x"));
}

#[test]
fn parse_ports_expr_lists_invalid_tokens_in_order() {
    let err = parse_ports_expr_strict("b, 80, a").unwrap_err();
    assert_eq!(err, "invalid ports: b, a");
}

#[test]
fn parse_ports_expr_enforces_max_port_count() {
    let expr = format!("1-{}", MAX_PORT_COUNT + 1);
    let err = parse_ports_expr_strict(&expr).unwrap_err();
    assert!(err.contains("too many ports"));
}

#[test]
fn parse_ports_expr_empty_input_yields_no_ports() {
    assert_eq!(parse_ports_expr_strict("").unwrap(), Vec::<u16>::new());
    assert_eq!(parse_ports_expr_strict("  ,  , ").unwrap(), Vec::<u16>::new());
}

#[test]
fn parse_ports_expr_rejects_zero_ports() {
    let err = parse_ports_expr_strict("0").unwrap_err();
    assert!(err.contains("invalid ports:"));
    assert!(err.contains("0"));
    let err = parse_ports_expr_strict("0-5").unwrap_err();
    assert!(err.contains("0-5"));
}

#[test]
fn parse_ports_expr_rejects_reversed_range() {
    let err = parse_ports_expr_strict("9000-8000").unwrap_err();
    assert!(err.contains("invalid ports:"));
    assert!(err.contains("9000-8000"));
}

#[test]
fn parse_ports_expr_accepts_exactly_the_ceiling() {
    let expr = format!("1-{}", MAX_PORT_COUNT);
    let got = parse_ports_expr_strict(&expr).unwrap();
    assert_eq!(got.len(), MAX_PORT_COUNT);
    assert_eq!(got[0], 1);
    assert_eq!(got[MAX_PORT_COUNT - 1], MAX_PORT_COUNT as u16);
}

#[test]
fn parse_ports_expr_too_many_message_names_counts() {
    let expr = format!("1-{}", MAX_PORT_COUNT + 1);
    let err = parse_ports_expr_strict(&expr).unwrap_err();
    assert_eq!(err, "too many ports: 5001 (max 5000)");
}

#[test]
fn parse_ports_expr_ceiling_wins_over_invalid_tokens() {
    let expr = format!("nope, 1-{}", MAX_PORT_COUNT + 1);
    let err = parse_ports_expr_strict(&expr).unwrap_err();
    assert!(err.contains("too many ports"));
}

#[test]
fn parse_ports_expr_accepts_plus_sign_like_std() {
    // The standard integer parser accepts a leading plus sign and zeros.
    assert_eq!(parse_ports_expr_strict("+80").unwrap(), vec![80]);
    assert_eq!(parse_ports_expr_strict("+80-+82").unwrap(), vec![80, 81, 82]);
    assert_eq!(parse_ports_expr_strict("007").unwrap(), vec![7]);
}

#[test]
fn parse_ports_expr_rejects_out_of_range_port() {
    let err = parse_ports_expr_strict("65536").unwrap_err();
    assert!(err.contains("invalid ports:"));
    assert!(err.contains("65536"));
}

#[test]
fn parse_ports_expr_splits_on_whitespace_too() {
    let got = parse_ports_expr_strict("443 80\t8080").unwrap();
    assert_eq!(got, vec![80, 443, 8080]);
}

#[test]
fn parse_ports_expr_overlapping_ranges_deduplicate() {
    let got = parse_ports_expr_strict("3000-3004,3002-3006").unwrap();
    assert_eq!(got, vec![3000, 3001, 3002, 3003, 3004, 3005, 3006]);
}

#[test]
fn default_expression_parses_cleanly() {
    let got = parse_ports_expr_strict(DEFAULT_PORTS_EXPR).unwrap();
    assert_eq!(got.len(), 40);
    assert!(got.contains(&3000));
    assert!(got.contains(&5173));
    assert!(got.contains(&4200));
    assert!(got.contains(&8089));
}
