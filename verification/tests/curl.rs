use ccr::handlers::curl::CurlHandler;

fn args(v: &[&str]) -> Vec<String> {
    v.iter().map(|s| s.to_string()).collect()
}

#[test]
fn long_non_json_output_capped_at_30_lines() {
    let handler = CurlHandler;
    // 50 lines of plain text
    let output: String = (1..=50).map(|i| format!("line {}", i)).collect::<Vec<_>>().join("\n");
    let result = handler.filter(&output, &args(&[]));
    let result_lines: Vec<&str> = result.lines().collect();
    // 30 content lines + 1 marker line
    assert_eq!(result_lines.len(), 31, "should be 30 lines + marker");
    assert!(result_lines[30].contains("[+20 more lines]"), "marker should show remaining count");
    assert!(result_lines[0] == "line 1");
    assert!(result_lines[29] == "line 30");
}

#[test]
fn json_output_gets_schema_treatment() {
    let handler = CurlHandler;
    // A large JSON array — schema should be smaller
    let items: Vec<String> = (1..=50)
        .map(|i| format!(r#"{{"id":{},"name":"user{}","email":"user{}@example.com","active":true}}"#, i, i, i))
        .collect();
    let output = format!("[{}]", items.join(","));
    let result = handler.filter(&output, &args(&[]));
    assert!(result.len() < output.len(), "schema should be smaller than original JSON");
    // Schema output should contain field names or array item summary
    assert!(
        result.contains("\"id\"") || result.contains("\"name\"") || result.contains("items total"),
        "schema result should contain field names or array summary"
    );
}

#[test]
fn short_non_json_output_passes_through_unchanged() {
    let handler = CurlHandler;
    let output = "Hello, world!\nThis is a short response.\nOnly 3 lines.";
    let result = handler.filter(output, &args(&[]));
    assert_eq!(result, output, "short output should pass through unchanged");
}

#[test]
fn long_lines_are_truncated() {
    let handler = CurlHandler;
    let long_line = "x".repeat(300);
    let output = long_line.clone();
    let result = handler.filter(&output, &args(&[]));
    // Should be 200 chars + ellipsis character (1 char)
    let chars: Vec<char> = result.chars().collect();
    assert_eq!(chars.len(), 201, "truncated line should be 200 chars + ellipsis");
    assert_eq!(chars[200], '…');
}
