use ccr::handlers::curl::{extract_body, plain_output, truncate_line};
use ccr::handlers::gh::{
    filter_issue_list, filter_pr_checks, filter_pr_list, filter_run, is_image_only_line, last_line,
    truncate, GhHandler,
};
use ccr::handlers::kubectl::{
    filter_changes, filter_describe, filter_logs, try_filter_get, KubectlFiltered, KubectlHandler,
};
use ccr::handlers::log::{filter_with_patterns, is_error_line, is_warning_line, normalize_line, LogPatterns};
use ccr::handlers::make::MakeHandler;
use ccr::handlers::npm::{
    extract_package_count, filter_install, filter_test, is_boilerplate_line, is_lifecycle_header,
    NpmHandler,
};
use ccr::handlers::psql::PsqlHandler;
use ccr::handlers::tree::TreeHandler;
use ccr::handlers::util::{check_match_output, pattern_matches_exec, MatchOutputRule};

fn strings(v: &[&str]) -> Vec<String> {
    v.iter().map(|s| s.to_string()).collect()
}

// ── gh ───────────────────────────────────────────────────────────────────────

#[test]
fn gh_pr_list_formats_rows_and_keeps_short_lines() {
    let out = filter_pr_list("123\tFix bug\tOPEN\talice\n\n45\tshort");
    assert_eq!(out, "#123 Fix bug [OPEN] @alice\n45\tshort");
}

#[test]
fn gh_issue_list_formats_rows_without_assignee() {
    let out = filter_issue_list("7\tCrash on start\tbug\n");
    assert_eq!(out, "#7 Crash on start [bug] @");
}

#[test]
fn gh_truncate_counts_characters() {
    assert_eq!(truncate("abcdef", 3), "abc…");
    assert_eq!(truncate("abc", 3), "abc");
    assert_eq!(truncate("héllo", 2), "hé…");
}

#[test]
fn gh_pr_checks_counts_passed_and_names_failures() {
    let out = filter_pr_checks("✓ build 1m\nlint\tfail\t2m\n\n× test  3m");
    assert_eq!(out, "✓ 1 passed, ✗ 2 failed\nlint\n×");
}

#[test]
fn gh_pr_checks_all_passed_has_one_line() {
    assert_eq!(filter_pr_checks("✓ a\n✓ b\n"), "✓ 2 passed, ✗ 0 failed");
}

#[test]
fn gh_run_keeps_status_lines_or_everything() {
    let out = filter_run("STATUS  TITLE\ncompleted success CI main\nin_progress Deploy\n");
    assert_eq!(out, "completed success CI main\nin_progress Deploy");
    assert_eq!(filter_run("nothing here"), "nothing here");
}

#[test]
fn gh_last_line_skips_trailing_blank_lines() {
    assert_eq!(last_line("Cloning into 'x'...\ndone.\n  \n"), "done.");
    assert_eq!(last_line("\n  "), "\n  ");
}

#[test]
fn gh_image_only_lines_are_recognised() {
    assert!(is_image_only_line("  ![badge](https://x/y.svg)  "));
    assert!(!is_image_only_line("![badge](https://x/y.svg) text"));
    assert!(!is_image_only_line("see ![badge](x)"));
}

#[test]
fn gh_routes_by_subcommand_and_bypasses_web() {
    let h = GhHandler;
    let out = h.filter("Cloning...\ndone\n", &strings(&["gh", "repo", "clone", "x"]));
    assert_eq!(out, "done");
    let raw = "123\tFix\tOPEN\tbob";
    assert_eq!(h.filter(raw, &strings(&["gh", "pr", "list", "--web"])), raw);
    assert_eq!(h.filter(raw, &strings(&["gh", "pr", "list"])), "#123 Fix [OPEN] @bob");
    assert_eq!(h.filter(raw, &strings(&["gh", "status"])), raw);
}

// ── npm ──────────────────────────────────────────────────────────────────────

#[test]
fn npm_rewrite_args_adds_no_progress_once() {
    let h = NpmHandler;
    assert_eq!(
        h.rewrite_args(&strings(&["npm", "install", "lodash"])),
        strings(&["npm", "install", "lodash", "--no-progress"])
    );
    assert_eq!(
        h.rewrite_args(&strings(&["npm", "ci", "--no-progress"])),
        strings(&["npm", "ci", "--no-progress"])
    );
    assert_eq!(h.rewrite_args(&strings(&["npm", "run", "build"])), strings(&["npm", "run", "build"]));
}

#[test]
fn npm_lifecycle_header_needs_one_script_word() {
    assert!(is_lifecycle_header("> app@1.0.0 build"));
    assert!(is_lifecycle_header("> @scope/pkg@2.3.1 start"));
    assert!(!is_lifecycle_header("> app@1.0.0 run build"));
    assert!(!is_lifecycle_header("> just"));
    assert!(!is_lifecycle_header("build"));
}

#[test]
fn npm_boilerplate_lines_are_recognised() {
    assert!(is_boilerplate_line("npm WARN deprecated x"));
    assert!(is_boilerplate_line("  npm notice new version"));
    assert!(is_boilerplate_line("  ...  "));
    assert!(is_boilerplate_line("> app@1.0.0 build"));
    assert!(!is_boilerplate_line("hello"));
    assert!(!is_boilerplate_line(""));
}

#[test]
fn npm_package_count_parses_like_std() {
    assert_eq!(extract_package_count("added 42 packages in 3s"), Some(42));
    assert_eq!(extract_package_count("installed 7 packages"), Some(7));
    assert_eq!(extract_package_count("added +5 packages"), Some(5));
    assert_eq!(extract_package_count("added lots of packages"), None);
    assert_eq!(extract_package_count("added 4294967296 packages"), None);
    assert_eq!(extract_package_count("added 4294967295 packages"), Some(4294967295));
    assert_eq!(extract_package_count("added"), None);
}

#[test]
fn npm_install_summary_with_audit_line() {
    let out = filter_install("npm WARN x\nadded 3 packages\nfound 0 vulnerabilities");
    assert_eq!(out, "[install complete — 3 packages]\nfound 0 vulnerabilities");
    assert_eq!(filter_install("up to date"), "[install complete — packages]");
}

#[test]
fn npm_test_keeps_failures_and_last_summary() {
    let out = filter_test("PASS a\n✕ adds (5ms)\nTests: 1 failed, 2 passed");
    assert_eq!(out, "✕ adds (5ms)\nTests: 1 failed, 2 passed");
    assert_eq!(filter_test("ok\nTests: 3 passed"), "Tests: 3 passed");
    assert_eq!(filter_test("nothing to see"), "nothing to see");
}

// ── tree ─────────────────────────────────────────────────────────────────────

#[test]
fn tree_long_output_without_summary_line() {
    let input: String = (0..31).map(|i| format!("x{}", i)).collect::<Vec<_>>().join("\n");
    let out = TreeHandler.filter(&input, &[]);
    let expected: Vec<String> = (0..25).map(|i| format!("x{}", i)).collect();
    assert_eq!(out, format!("{}\n[... 6 more entries]", expected.join("\n")));
}

// ── make ─────────────────────────────────────────────────────────────────────

#[test]
fn make_success_keeps_tail_and_marks_complete() {
    let out = MakeHandler.filter("make[1]: Entering directory\ngcc -c a.c\ngcc -o app a.o\n", &[]);
    assert_eq!(out, "gcc -c a.c\ngcc -o app a.o\n[make: complete]");
    assert_eq!(MakeHandler.filter("", &[]), "[make: complete]");
}

#[test]
fn make_errors_keep_compiler_and_failure_lines() {
    let out = MakeHandler.filter("src/a.c:3:5: error: x\nmake: *** [all] Error 1", &[]);
    assert_eq!(out, "src/a.c:3:5: error: x\nmake: *** [all] Error 1");
}

#[test]
fn match_output_rules_fire_in_order() {
    let rules = [
        MatchOutputRule { success_pattern: r"(?i)done", error_pattern: r"fail", ok_message: "first" },
        MatchOutputRule { success_pattern: r"ok", error_pattern: r"never", ok_message: "second" },
    ];
    assert_eq!(check_match_output("DONE ok", &rules), Some("first".to_string()));
    assert_eq!(check_match_output("done but fail, ok", &rules), Some("second".to_string()));
    assert_eq!(check_match_output("nothing", &rules), None);
    assert!(!pattern_matches_exec("(unclosed", "(unclosed"));
    assert!(pattern_matches_exec(r"^\d+$", "123"));
}

// ── psql ─────────────────────────────────────────────────────────────────────

#[test]
fn psql_border_only_output_is_unchanged() {
    assert_eq!(PsqlHandler.filter("+---+\n===\n", &[]), "+---+\n===\n");
}

// ── log ──────────────────────────────────────────────────────────────────────

#[test]
fn log_normalize_line_replaces_volatile_parts() {
    let pats = LogPatterns::new().expect("patterns compile");
    let out = normalize_line("2024-01-15 10:30:00 user 1234567 at /var/log/app/x.log", &pats);
    assert_eq!(out, "<TS> user <NUM> at <PATH>");
    let out = normalize_line("id 550e8400-e29b-41d4-a716-446655440000 addr 0xdeadbeef", &pats);
    assert_eq!(out, "id <UUID> addr <HEX>");
}

#[test]
fn log_line_classes_ignore_case() {
    assert!(is_error_line("FATAL crash"));
    assert!(is_error_line("unhandled Exception"));
    assert!(!is_error_line("all good"));
    assert!(is_warning_line("Warning: disk"));
    assert!(!is_warning_line("fine"));
}

#[test]
fn log_summary_sorts_errors_by_count() {
    let pats = LogPatterns::new().expect("patterns compile");
    let out = filter_with_patterns("error a\nerror b\nerror b\n", &pats);
    assert_eq!(
        out,
        "--- Log Summary ---\n[ERRORx2] error b\n[ERRORx1] error a\n\nerror a\nerror b  [×2]"
    );
}

#[test]
fn log_summary_keeps_first_seen_order_for_equal_counts() {
    let pats = LogPatterns::new().expect("patterns compile");
    let out = filter_with_patterns("warn x\nerror q\nwarn y\nerror p", &pats);
    assert_eq!(
        out,
        "--- Log Summary ---\n[ERRORx1] error q\n[ERRORx1] error p\n[WARNx1] warn x\n[WARNx1] warn y\n\nwarn x\nerror q\nwarn y\nerror p"
    );
}

// ── curl ─────────────────────────────────────────────────────────────────────

#[test]
fn curl_extract_body_after_headers() {
    assert_eq!(
        extract_body("HTTP/1.1 200 OK\r\nContent-Type: x\r\n\r\n{\"a\":1}"),
        Some("{\"a\":1}")
    );
    assert_eq!(extract_body("HTTP/1.1 200 OK\n\nbody"), Some("body"));
    assert_eq!(extract_body("HTTP/1.1 200 OK\nno blank line"), None);
    assert_eq!(extract_body("  [1,2]"), Some("  [1,2]"));
    assert_eq!(extract_body("hello"), None);
}

#[test]
fn curl_truncate_line_counts_characters() {
    assert_eq!(truncate_line("héllo", 2), "hé…");
    assert_eq!(truncate_line("hé", 2), "hé");
}

#[test]
fn curl_plain_output_caps_lines() {
    let input: String = (0..31).map(|i| format!("r{}", i)).collect::<Vec<_>>().join("\n");
    let expected: Vec<String> = (0..30).map(|i| format!("r{}", i)).collect();
    assert_eq!(plain_output(&input), format!("{}\n[+1 more lines]", expected.join("\n")));
}

// ── kubectl ──────────────────────────────────────────────────────────────────

#[test]
fn kubectl_rewrite_args_adds_tail_for_logs_only() {
    let h = KubectlHandler;
    assert_eq!(
        h.rewrite_args(&strings(&["kubectl", "logs", "pod"])),
        strings(&["kubectl", "logs", "pod", "--tail=200"])
    );
    assert_eq!(
        h.rewrite_args(&strings(&["kubectl", "logs", "pod", "--tail=50"])),
        strings(&["kubectl", "logs", "pod", "--tail=50"])
    );
    assert_eq!(h.rewrite_args(&strings(&["kubectl", "get", "pods"])), strings(&["kubectl", "get", "pods"]));
}

fn budget_of(r: KubectlFiltered) -> Option<usize> {
    match r {
        KubectlFiltered::Done(_) => None,
        KubectlFiltered::SummarizeLogs { budget } => Some(budget),
    }
}

#[test]
fn kubectl_logs_budget_is_a_third_within_bounds() {
    let many = |n: usize| (0..n).map(|i| format!("l{}", i)).collect::<Vec<_>>().join("\n");
    assert_eq!(budget_of(filter_logs(&many(3))), Some(20));
    assert_eq!(budget_of(filter_logs(&many(90))), Some(30));
    assert_eq!(budget_of(filter_logs(&many(900))), Some(200));
    match filter_logs("") {
        KubectlFiltered::Done(s) => assert_eq!(s, ""),
        KubectlFiltered::SummarizeLogs { .. } => panic!("empty logs are not summarized"),
    }
}

#[test]
fn kubectl_describe_keeps_sections_and_caps_annotations() {
    let input = "Name: web\nAnnotations: a=1\n  b=2\n  c=3\n  d=4\n  e=5\n  f=6\n  g=7\n  h=8\nStatus: Running\nIP: 1.2.3.4\nEvents: <none>";
    let out = filter_describe(input);
    assert_eq!(
        out,
        "Name: web\nAnnotations: a=1\n  b=2\n  c=3\n  d=4\n  e=5\n  f=6\n[6 annotations]\nStatus: Running\nEvents: <none>"
    );
}

#[test]
fn kubectl_changes_keep_resource_lines() {
    let out = filter_changes("Warning: x\ndeployment.apps/web configured\n\nservice/web unchanged");
    assert_eq!(out, "deployment.apps/web configured\nservice/web unchanged");
}

#[test]
fn kubectl_get_refuses_cells_that_split_a_character() {
    assert!(try_filter_get("NAME   STATUS\néééé Running").is_none());
    assert_eq!(
        try_filter_get("NAME   STATUS\nweb    Running"),
        Some("NAME\tSTATUS\nweb\tRunning".to_string())
    );
}

#[test]
fn kubectl_filter_routes_by_subcommand() {
    let h = KubectlHandler;
    match h.filter("pod/web created\nnoise", &strings(&["kubectl", "apply", "-f", "x"])) {
        KubectlFiltered::Done(s) => assert_eq!(s, "pod/web created"),
        KubectlFiltered::SummarizeLogs { .. } => panic!("apply output is filtered here"),
    }
    match h.filter("a\nb", &strings(&["kubectl", "version"])) {
        KubectlFiltered::Done(s) => assert_eq!(s, "a\nb"),
        KubectlFiltered::SummarizeLogs { .. } => panic!("other output passes through"),
    }
}

// ── laws on concrete values ──────────────────────────────────────────────────

#[test]
fn rewrites_are_idempotent() {
    let k = KubectlHandler;
    let once = k.rewrite_args(&strings(&["kubectl", "logs", "web"]));
    assert_eq!(k.rewrite_args(&once), once);
    let n = NpmHandler;
    let once = n.rewrite_args(&strings(&["npm", "add", "x"]));
    assert_eq!(n.rewrite_args(&once), once);
    let t = TreeHandler;
    let once = t.rewrite_args(&strings(&["tree", "src"]));
    assert_eq!(once.len(), 4);
    assert_eq!(t.rewrite_args(&once), once);
}

#[test]
fn log_counts_add_up_over_groups() {
    let pats = LogPatterns::new().expect("patterns compile");
    assert_eq!(filter_with_patterns("a\nb\na\na", &pats), "a  [×3]\nb");
}

#[test]
fn log_output_is_capped_at_200_lines() {
    let pats = LogPatterns::new().expect("patterns compile");
    let input: String = (0..300).map(|i| format!("line {}", i)).collect::<Vec<_>>().join("\n");
    let out = filter_with_patterns(&input, &pats);
    assert_eq!(out.lines().count(), 200);
    assert!(out.ends_with("line 199"));
}

#[test]
fn npm_run_script_drops_neighbour_repeats() {
    let mut lines: Vec<String> = (0..32).map(|i| format!("line {}", i)).collect();
    lines.push("error: boom".to_string());
    lines.push("error: boom".to_string());
    let out = ccr::handlers::npm::filter_run_script(&lines.join("\n"));
    assert_eq!(out, "error: boom\n[34 lines of output]\nline 29\nline 30\nline 31\nerror: boom");
}

#[test]
fn kubectl_get_header_names_are_upper_cased() {
    assert_eq!(
        try_filter_get("name   status\nweb    Running"),
        Some("NAME\tSTATUS\nweb\tRunning".to_string())
    );
}

#[test]
fn npm_lifecycle_script_must_be_one_plain_word() {
    assert!(is_lifecycle_header("> app@1.0.0 pre_build-2"));
    assert!(!is_lifecycle_header("> app@1.0.0 bu!ld"));
}
