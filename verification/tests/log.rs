use ccr::handlers::log::LogHandler;

fn h() -> LogHandler {
    LogHandler
}
fn args() -> Vec<String> {
    vec!["log".to_string()]
}

#[test]
fn repeated_lines_collapse() {
    let input = "hello world\nhello world\nhello world\n";
    let result = h().filter(input, &args());
    assert!(result.contains("[×3]"), "expected [×3] in: {}", result);
    // Should only appear once as the deduplicated line
    assert_eq!(result.matches("hello world").count(), 1);
}

#[test]
fn timestamps_normalized() {
    let input = "2024-01-15T10:30:00 starting up\n2024-01-15T10:30:01 ready\n";
    let result = h().filter(input, &args());
    assert!(!result.contains("2024-01-15"), "raw timestamp should be replaced");
    assert!(result.contains("<TS>"));
}

#[test]
fn uuid_normalized() {
    let input = "request id=550e8400-e29b-41d4-a716-446655440000 received\n";
    let result = h().filter(input, &args());
    assert!(!result.contains("550e8400"), "UUID should be replaced");
    assert!(result.contains("<UUID>"));
}

#[test]
fn error_summary_appears_when_errors_present() {
    let input = "INFO: started\nERROR: connection refused\nINFO: retrying\n";
    let result = h().filter(input, &args());
    assert!(result.contains("--- Log Summary ---"), "summary block missing");
    assert!(result.contains("[ERRORx"), "error entry missing in summary");
}

#[test]
fn clean_log_has_no_summary_block() {
    let input = "INFO: service started\nINFO: listening on port 8080\nINFO: ready\n";
    let result = h().filter(input, &args());
    assert!(
        !result.contains("--- Log Summary ---"),
        "summary block should not appear for clean log"
    );
}

#[test]
fn hex_normalized() {
    let input = "memory at 0xdeadbeef00 leaked\n";
    let result = h().filter(input, &args());
    assert!(result.contains("<HEX>"));
    assert!(!result.contains("0xdeadbeef00"));
}

#[test]
fn large_numbers_normalized() {
    let input = "processed 1234567 records\n";
    let result = h().filter(input, &args());
    assert!(result.contains("<NUM>"));
}
