use openworkers_conformance::report::{percent, truncate, FileReport, Suite, TestOutcome};

fn outcome(name: &str, passed: bool, error: &str) -> TestOutcome {
    TestOutcome { name: name.to_string(), passed, error: error.to_string() }
}

fn file(area: &str, path: &str, tests: Vec<TestOutcome>) -> FileReport {
    FileReport { area: area.to_string(), path: path.to_string(), error: None, tests }
}

#[test]
fn percent_rounds_down_and_dashes_empty() {
    assert_eq!(percent(1, 3), "33%");
    assert_eq!(percent(3, 3), "100%");
    assert_eq!(percent(0, 0), "-");
    assert_eq!(percent(0, 5), "0%");
}

#[test]
fn truncate_flattens_and_cuts() {
    assert_eq!(truncate("a\nb", 10), "a b");
    assert_eq!(truncate("abcdef", 3), "abc...");
    assert_eq!(truncate("abc", 3), "abc");
    assert_eq!(truncate("héllo wörld", 5), "héllo...");
}

#[test]
fn aborted_fails_every_declared_test() {
    let r = FileReport::aborted("url", "url/url.js", vec!["a".to_string(), "b".to_string()], "boom".to_string());
    assert_eq!(r.total(), 2);
    assert_eq!(r.passed(), 0);
    assert_eq!(r.error.as_deref(), Some("boom"));
    assert_eq!(r.first_failure().unwrap().name, "a");
    assert_eq!(r.first_failure().unwrap().error, "boom");
}

#[test]
fn unreadable_has_no_denominator() {
    let r = FileReport::unreadable("url", "url/url.js", "read failed: gone".to_string());
    assert_eq!(r.total(), 0);
    assert_eq!(r.passed(), 0);
    assert!(r.first_failure().is_none());
}

#[test]
fn suite_sums_and_groups_areas() {
    let files = vec![
        file("url", "url/a.js", vec![outcome("x", true, ""), outcome("y", false, "nope")]),
        file("crypto", "crypto/c.js", vec![outcome("z", true, "")]),
        file("url", "url/b.js", vec![outcome("w", true, "")]),
    ];
    let suite = Suite::new("v8", files);
    assert_eq!(suite.passed, 3);
    assert_eq!(suite.total, 4);
    let areas = suite.areas();
    assert_eq!(areas.len(), 2);
    assert_eq!(areas[0].name, "crypto");
    assert_eq!((areas[0].passed, areas[0].total), (1, 1));
    assert_eq!(areas[1].name, "url");
    assert_eq!((areas[1].passed, areas[1].total), (2, 3));
}

#[test]
fn suite_render_exact() {
    let files = vec![
        file("url", "url/a.js", vec![outcome("x", true, ""), outcome("y", false, "nope")]),
    ];
    let suite = Suite::new("v8", files);
    let expected = [
        "backend: v8\n",
        "files:   1\n",
        "\n",
        "file      score      first failure\n",
        "--------------------------------------------------------------------\n",
        "url/a.js  1/2        y: nope\n",
        "\n",
        "area            score      %\n",
        "----------------------------------\n",
        "url             1/2        50%\n",
        "----------------------------------\n",
        "TOTAL           1/2        50%\n",
    ]
    .concat();
    assert_eq!(suite.render(false), expected);
    let verbose = suite.render(true);
    assert!(verbose.contains("url/a.js  1/2        y: nope\n            FAIL y: nope\n"));
}
