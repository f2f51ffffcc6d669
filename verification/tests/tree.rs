use ccr::handlers::tree::TreeHandler;

fn handler() -> TreeHandler {
    TreeHandler
}

#[test]
fn test_rewrite_args_injects_ignore_when_not_present() {
    let h = handler();
    let args: Vec<String> = vec!["tree".to_string(), ".".to_string()];
    let result = h.rewrite_args(&args);
    let i_pos = result.iter().position(|a| a == "-I");
    assert!(i_pos.is_some(), "expected -I to be injected, got: {:?}", result);
    let pattern = &result[i_pos.unwrap() + 1];
    assert!(pattern.contains("node_modules"), "got: {}", pattern);
    assert!(pattern.contains(".git"), "got: {}", pattern);
}

#[test]
#[allow(non_snake_case)]
fn test_rewrite_args_does_not_inject_when_user_has_I() {
    let h = handler();
    let args: Vec<String> = vec![
        "tree".to_string(),
        "-I".to_string(),
        "vendor".to_string(),
    ];
    let result = h.rewrite_args(&args);
    // Should be identical to input
    assert_eq!(result, args);
}

#[test]
fn test_rewrite_args_does_not_inject_when_user_has_gitignore() {
    let h = handler();
    let args: Vec<String> = vec!["tree".to_string(), "--gitignore".to_string()];
    let result = h.rewrite_args(&args);
    assert_eq!(result, args);
}

#[test]
fn test_rewrite_args_does_not_inject_when_user_has_a_flag() {
    let h = handler();
    let args: Vec<String> = vec!["tree".to_string(), "-a".to_string()];
    let result = h.rewrite_args(&args);
    assert_eq!(result, args);
}

#[test]
fn test_filter_short_output_unchanged() {
    let h = handler();
    let output = ".\n├── src\n│   └── main.rs\n└── Cargo.toml\n\n1 directory, 2 files\n";
    let result = h.filter(output, &[]);
    assert_eq!(result, output);
}

#[test]
fn test_filter_long_output_truncated_with_summary() {
    let h = handler();
    // Build 40 lines + summary
    let mut lines: Vec<String> = (0..40).map(|i| format!("├── file{}.rs", i)).collect();
    lines.push("".to_string());
    lines.push("0 directories, 40 files".to_string());
    let output = lines.join("\n");
    let result = h.filter(&output, &[]);
    assert!(result.contains("[... "), "should have truncation marker, got: {}", result);
    assert!(result.contains("0 directories, 40 files"), "should keep summary, got: {}", result);
}
