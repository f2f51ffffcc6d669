use ccr::handlers::gh::{filter_pr_view, GhHandler};

fn args(v: &[&str]) -> Vec<String> {
    v.iter().map(|s| s.to_string()).collect()
}

#[test]
fn json_flag_causes_passthrough() {
    let handler = GhHandler;
    let output = "some\nformatted\noutput\nhere";
    // --json flag: should return output unchanged
    let result = handler.filter(output, &args(&["gh", "pr", "view", "--json", "number,title"]));
    assert_eq!(result, output);
}

#[test]
fn jq_flag_causes_passthrough() {
    let handler = GhHandler;
    let output = "{\"number\":1}";
    let result = handler.filter(output, &args(&["gh", "pr", "list", "--jq", ".[] | .number"]));
    assert_eq!(result, output);
}

#[test]
fn pr_view_strips_html_comments_and_image_lines() {
    // Build a synthetic PR view output
    let output = "\
title:\tFix the bug
state:\tOPEN
author:\talice
--
## Summary
<!-- this is an internal note -->
![badge](https://img.shields.io/badge/status-passing-green)
This PR fixes the crash in login.
---
More details here.
checks:\tall passing";

    let result = filter_pr_view(output);
    assert!(result.contains("title:"), "should keep title");
    assert!(result.contains("This PR fixes the crash"), "should keep regular content");
    assert!(!result.contains("<!--"), "should strip HTML comment lines");
    assert!(!result.contains("![badge]"), "should strip image-only lines");
    assert!(!result.contains("\n---\n") || result.contains("title:"), "should strip horizontal rules");
    assert!(result.contains("checks:"), "should keep checks line");
}

#[test]
fn pr_view_keeps_regular_content() {
    let output = "\
title:\tAdd new feature
state:\tMERGED
author:\tbob
--
This is a detailed description.
It spans multiple lines.
No badges, no HTML comments here.
checks:\t3/3 passing";

    let result = filter_pr_view(output);
    assert!(result.contains("This is a detailed description."));
    assert!(result.contains("It spans multiple lines."));
    assert!(result.contains("No badges, no HTML comments here."));
    assert!(result.contains("checks:"));
}

#[test]
fn pr_view_collapses_excess_blank_lines() {
    let output = "title:\tTest\nstate:\tOPEN\nauthor:\tx\n--\nLine one\n\n\n\n\nLine two";
    let result = filter_pr_view(output);
    // Should not have 3+ consecutive blank lines
    assert!(!result.contains("\n\n\n\n"), "3+ blanks should be collapsed");
    assert!(result.contains("Line one"));
    assert!(result.contains("Line two"));
}
