use openworkers_conformance::harness::{
    declared_tests, failure_reason, file_report, merge, read_failed, Evaluation, GuestResult, RunFailure,
};

fn result(name: &str, ok: bool, error: &str) -> GuestResult {
    GuestResult { name: name.to_string(), ok, error: error.to_string() }
}

const SOURCE: &str = "// header\ntest('first', () => {\n  assert(true);\n});\n  test('indented', () => {});\ntest(\"second\", async () => {});\r\ntest('unterminated, () => {});\ntest(first)\n";

#[test]
fn declared_tests_reads_column_zero_only() {
    assert_eq!(declared_tests(SOURCE), vec!["first".to_string(), "second".to_string()]);
    assert_eq!(declared_tests(""), Vec::<String>::new());
    assert_eq!(declared_tests("test('a')"), vec!["a".to_string()]);
    assert_eq!(declared_tests("test('')\n"), vec!["".to_string()]);
}

#[test]
fn merge_last_report_wins_and_keeps_strays() {
    let declared = vec!["a".to_string(), "b".to_string()];
    let reported = vec![result("a", true, ""), result("stray", true, ""), result("a", false, "late")];
    let out = merge(declared, reported);
    assert_eq!(out.len(), 3);
    assert_eq!((out[0].name.as_str(), out[0].passed, out[0].error.as_str()), ("a", false, "late"));
    assert_eq!(
        (out[1].name.as_str(), out[1].passed, out[1].error.as_str()),
        ("b", false, "not reported by the guest")
    );
    assert_eq!((out[2].name.as_str(), out[2].passed), ("stray", true));
}

#[test]
fn file_report_of_a_reported_run() {
    let results = vec![result("first", true, ""), result("second", false, "boom")];
    let r = file_report("url", "url/url.js", SOURCE, Evaluation::Reported(results));
    assert_eq!(r.area, "url");
    assert_eq!(r.path, "url/url.js");
    assert!(r.error.is_none());
    assert_eq!(r.total(), 2);
    assert_eq!(r.passed(), 1);
    assert_eq!(r.first_failure().unwrap().error, "boom");
}

#[test]
fn file_report_timeout_keeps_the_denominator() {
    let r = file_report("url", "url/url.js", SOURCE, Evaluation::TimedOut(5));
    assert_eq!(r.error.as_deref(), Some("no response after 5s"));
    assert_eq!(r.total(), 2);
    assert_eq!(r.passed(), 0);
    assert!(r.tests.iter().all(|t| t.error == "no response after 5s"));
    assert_eq!(r.tests[1].name, "second");
}

#[test]
fn file_report_failed_run() {
    let r = file_report("g", "g.js", SOURCE, Evaluation::Failed(RunFailure::InitFailed("nope".to_string())));
    assert_eq!(r.error.as_deref(), Some("worker init failed: nope"));
    assert_eq!((r.passed(), r.total()), (0, 2));
}

#[test]
fn file_report_unparseable_truncates_the_body() {
    let body = "x".repeat(250);
    let r = file_report(
        "g",
        "g.js",
        "test('only', f)\n",
        Evaluation::Unparseable { error: "expected value".to_string(), body },
    );
    let expected = format!("unparseable report (expected value): {}...", "x".repeat(200));
    assert_eq!(r.error.as_deref(), Some(expected.as_str()));
    assert_eq!(r.tests.len(), 1);
    assert_eq!(r.tests[0].error, expected);
}

#[test]
fn a_file_that_never_ran_scores_zero_of_its_declared_tests() {
    for evaluation in [
        Evaluation::Failed(RunFailure::NoResponse),
        Evaluation::TimedOut(1),
        Evaluation::Unparseable { error: "e".to_string(), body: "b".to_string() },
    ] {
        let r = file_report("a", "a.js", SOURCE, evaluation);
        assert_eq!(r.total(), declared_tests(SOURCE).len());
        assert_eq!(r.passed(), 0);
    }
}

#[test]
fn failure_reasons_read_as_the_report_says() {
    assert_eq!(failure_reason(&RunFailure::InitFailed("bad".to_string())), "worker init failed: bad");
    assert_eq!(failure_reason(&RunFailure::ExecFailed("timeout".to_string())), "exec failed: timeout");
    assert_eq!(failure_reason(&RunFailure::NoResponse), "worker sent no response");
    assert_eq!(failure_reason(&RunFailure::BodyFailed("reset".to_string())), "body stream failed: reset");
    assert_eq!(failure_reason(&RunFailure::EmptyBody), "worker sent an empty body");
    assert_eq!(failure_reason(&RunFailure::NotUtf8("byte 3".to_string())), "body is not utf-8: byte 3");
}

#[test]
fn an_unreadable_file_has_no_denominator() {
    let r = read_failed("url", "url/url.js", "No such file or directory (os error 2)");
    assert_eq!(r.error.as_deref(), Some("read failed: No such file or directory (os error 2)"));
    assert_eq!((r.total(), r.passed()), (0, 0));
    assert_eq!(r.path, "url/url.js");
}
