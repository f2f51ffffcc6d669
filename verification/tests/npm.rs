use ccr::handlers::npm::{filter_run_script, NpmHandler};

fn args(v: &[&str]) -> Vec<String> {
    v.iter().map(|s| s.to_string()).collect()
}

#[test]
fn npm_warn_lines_dropped_from_install_output() {
    let handler = NpmHandler;
    let output = "\
npm WARN deprecated lodash@3.0.0: use lodash@4 instead
npm notice created a lockfile
added 42 packages from 30 contributors
npm WARN optional SKIPPING OPTIONAL DEPENDENCY";
    let result = handler.filter(output, &args(&["npm", "install"]));
    assert!(!result.contains("npm WARN"), "npm WARN lines should be stripped");
    assert!(!result.contains("npm notice"), "npm notice lines should be stripped");
    assert!(result.contains("42 packages"), "package count should be kept");
}

#[test]
fn lifecycle_header_lines_dropped_from_install() {
    let handler = NpmHandler;
    let output = "\
> my-project@1.0.0 prepare
> husky install

added 10 packages";
    let result = handler.filter(output, &args(&["npm", "install"]));
    assert!(!result.contains("> my-project@1.0.0 prepare"), "lifecycle header should be stripped");
    assert!(result.contains("10 packages"), "package count should be kept");
}

#[test]
fn package_count_summary_kept() {
    let handler = NpmHandler;
    let output = "\
npm WARN deprecated foo@1.0.0: bar
> project@0.1.0 postinstall
added 123 packages in 4.2s";
    let result = handler.filter(output, &args(&["npm", "install"]));
    assert!(result.contains("123 packages"), "package count summary must be present");
    assert!(!result.contains("npm WARN"), "WARN lines must be stripped");
}

#[test]
fn run_script_strips_boilerplate_and_empty_lines() {
    // Build output with > lifecycle header and empty lines mixed in
    let mut lines: Vec<String> = vec![
        "> my-app@1.0.0 build".to_string(),
        String::new(),
    ];
    // Add 35 real output lines
    for i in 1..=35 {
        lines.push(format!("Building module {}", i));
    }
    lines.push("Build complete in 5s".to_string());
    let output = lines.join("\n");
    let result = filter_run_script(&output);
    // Should not contain the lifecycle header
    assert!(!result.contains("> my-app@1.0.0 build"), "lifecycle header should be stripped");
    // Should mention the success line
    assert!(result.contains("Build complete"), "important lines should be kept");
}
