use ccr::handlers::kubectl::{filter_changes, filter_get};

// A realistic `kubectl get pods` snippet
const PODS_OUTPUT: &str = "\
NAME                          READY   STATUS    RESTARTS   AGE
my-app-6d4f8b9c7-xk2pq        1/1     Running   3          5d
another-pod-5b7c9d8f4-qr3mn   2/2     Running   0          2h
";

#[test]
fn filter_get_keeps_name_status_ready_drops_age_restarts() {
    let result = filter_get(PODS_OUTPUT);
    // Should contain NAME, READY, STATUS columns
    assert!(result.contains("NAME"), "missing NAME header");
    assert!(result.contains("STATUS"), "missing STATUS header");
    assert!(result.contains("READY"), "missing READY header");
    // AGE and RESTARTS should NOT appear as column headers
    let header_line = result.lines().next().unwrap();
    assert!(!header_line.contains("AGE"), "AGE should be dropped");
    assert!(!header_line.contains("RESTARTS"), "RESTARTS should be dropped");
    // Data should contain pod name
    assert!(result.contains("my-app-6d4f8b9c7-xk2pq"));
    assert!(result.contains("Running"));
}

#[test]
fn filter_get_fallback_keeps_first_three_columns_when_no_interesting() {
    // Columns that are not in INTERESTING_COLUMNS
    let weird = "\
FOO   BAR   BAZ   QUUX
aaa   bbb   ccc   ddd
";
    let result = filter_get(weird);
    let header = result.lines().next().unwrap();
    // Should keep the first 3: FOO, BAR, BAZ
    assert!(header.contains("FOO"));
    assert!(header.contains("BAR"));
    assert!(header.contains("BAZ"));
    // QUUX should be dropped
    assert!(!header.contains("QUUX"), "QUUX should be dropped in fallback");
}

#[test]
fn filter_get_caps_at_30_rows() {
    // Build a table with 35 data rows
    let mut lines = vec![
        "NAME                    STATUS    READY".to_string(),
    ];
    for i in 0..35 {
        lines.push(format!("pod-{:<20} Running   1/1", i));
    }
    let input = lines.join("\n");
    let result = filter_get(&input);
    let result_lines: Vec<&str> = result.lines().collect();
    // header + 30 data + 1 "[+N more]" line
    assert_eq!(result_lines.len(), 32, "expected header + 30 rows + tail line");
    assert!(result_lines.last().unwrap().contains("[+5 more]"));
}

#[test]
fn filter_changes_keeps_configured_and_created_lines() {
    let input = "\
deployment.apps/my-app configured
some noise line with no keywords
service/my-svc created
another irrelevant line
pod/debug-pod-xyz unchanged
";
    let result = filter_changes(input);
    assert!(result.contains("configured"));
    assert!(result.contains("created"));
    assert!(result.contains("unchanged"));
    assert!(!result.contains("noise"), "noise lines should be dropped");
    assert!(!result.contains("irrelevant"), "irrelevant lines should be dropped");
}

#[test]
fn filter_changes_returns_original_when_nothing_matches() {
    let input = "no relevant lines here\njust random text\n";
    let result = filter_changes(input);
    // passthrough preserves the original (including trailing newline)
    assert_eq!(result, input);
}
