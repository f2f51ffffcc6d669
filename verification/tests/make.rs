use ccr::handlers::make::MakeHandler;

fn handler() -> MakeHandler {
    MakeHandler
}

#[test]
fn nothing_to_be_done_short_circuits() {
    let output = "make[1]: Entering directory '/project'\nmake[1]: Nothing to be done for 'all'.\nmake[1]: Leaving directory '/project'";
    let result = handler().filter(output, &[]);
    assert_eq!(result, "make: ok (nothing to do)");
}

#[test]
fn error_output_not_short_circuited() {
    let output =
        "gcc -o main main.c\nmain.c:5:1: error: expected ';' before '}'\n*** [main] Error 1";
    let result = handler().filter(output, &[]);
    // Should NOT return the short-circuit ok message
    assert_ne!(result, "make: ok (nothing to do)");
    // Should contain the error detail
    assert!(result.contains("error") || result.contains("Error"));
}
