use openworkers_conformance::report::{percent, truncate, FileReport, Suite, TestOutcome};
use openworkers_conformance::streaming::cases::{chunks_of, payload, CHUNK};
use openworkers_conformance::streaming::outcome::{Measures, Outcome, Probe, Run};
use openworkers_conformance::streaming::{run, select, Case, Received, Verdict};

fn outcome(name: &str, passed: bool) -> TestOutcome {
    TestOutcome { name: name.to_string(), passed, error: if passed { String::new() } else { "x".to_string() } }
}

fn file(area: &str, path: &str, results: &[bool]) -> FileReport {
    FileReport {
        area: area.to_string(),
        path: path.to_string(),
        error: None,
        tests: results.iter().enumerate().map(|(i, p)| outcome(&format!("t{i}"), *p)).collect(),
    }
}

#[test]
fn area_scores_add_up_to_the_total_line() {
    let suite = Suite::new(
        "quickjs",
        vec![
            file("url", "url/a.js", &[true, false, true]),
            file("streams", "streams/s.js", &[false, false]),
            file("crypto", "crypto/c.js", &[true]),
            file("url", "url/b.js", &[true]),
            file("streams", "streams/t.js", &[]),
        ],
    );
    let areas = suite.areas();
    let names: Vec<&str> = areas.iter().map(|a| a.name.as_str()).collect();
    assert_eq!(names, vec!["crypto", "streams", "url"]);
    assert_eq!(areas.iter().map(|a| a.total).sum::<usize>(), suite.total);
    assert_eq!(areas.iter().map(|a| a.passed).sum::<usize>(), suite.passed);
    assert_eq!((suite.passed, suite.total), (4, 7));
    assert!(areas.iter().all(|a| a.passed <= a.total));
}

#[test]
fn tally_counts_every_probe_once() {
    let probe = |name: &'static str, outcome: Outcome| Probe { name, dimension: "d", outcome, measures: Measures::default() };
    let run = Run {
        backend: "jsc",
        probes: vec![
            probe("a", Outcome::Streams),
            probe("b", Outcome::wrong("w".to_string())),
            probe("c", Outcome::Streams),
            probe("d", Outcome::Hangs),
            probe("e", Outcome::wrong("v".to_string())),
        ],
    };
    let tally = run.tally();
    assert_eq!(tally, "streams 2, wrong 2, hangs 1");
    let counted: usize = tally.split(", ").map(|item| item.rsplit(' ').next().unwrap().parse::<usize>().unwrap()).sum();
    assert_eq!(counted, run.probes.len());
}

#[test]
fn a_truncated_note_stays_on_one_line() {
    for (text, max) in [("line one\nline two\r\nthree", 10usize), ("short", 10), ("\n\n\n", 1), ("", 0)] {
        let t = truncate(text, max);
        assert!(!t.contains('\n'));
        assert!(t.chars().count() <= max + 3);
    }
    assert_eq!(truncate("line one\nline two", 10), "line one l...");
}

#[test]
fn a_percentage_never_exceeds_the_whole() {
    for total in 1..=20usize {
        for passed in 0..=total {
            let p = percent(passed, total);
            let n: usize = p.trim_end_matches('%').parse().unwrap();
            assert!(n <= 100);
            assert_eq!(n, passed * 100 / total);
        }
    }
}

#[test]
fn cut_chunks_rejoin_to_the_payload() {
    let p = payload(2);
    for size in [1usize, 7, 1000, CHUNK, CHUNK + 1, 3 * CHUNK] {
        let pieces = chunks_of(&p, size);
        assert_eq!(pieces.concat(), p);
        assert!(pieces.iter().all(|c| !c.is_empty() && c.len() <= size));
        assert!(pieces[..pieces.len() - 1].iter().all(|c| c.len() == size));
    }
}

#[test]
fn without_a_filter_everything_runs() {
    let corpus = || {
        vec![
            Case { name: "a", dimension: "x", budget_secs: 1, run: () },
            Case { name: "b", dimension: "y", budget_secs: 1, run: () },
        ]
    };
    assert_eq!(select(corpus(), None).len(), 2);
    let r = run("boa", corpus(), None, |_c: &Case<()>| Received::Finished(Verdict::new(Outcome::Buffers)));
    assert_eq!(r.probes.iter().map(|p| p.name).collect::<Vec<_>>(), vec!["a", "b"]);
}

#[test]
fn verbose_adds_one_line_per_failing_test() {
    let suite = Suite::new(
        "nova",
        vec![
            file("url", "url/a.js", &[true, false, false]),
            file("crypto", "crypto/c.js", &[true]),
            file("streams", "streams/s.js", &[false]),
        ],
    );
    let quiet = suite.render(false);
    let verbose = suite.render(true);
    assert_eq!(verbose.lines().count(), quiet.lines().count() + 3);
    let fails: Vec<&str> = verbose.lines().filter(|l| l.contains("    FAIL ")).collect();
    assert_eq!(fails, vec!["                FAIL t1: x", "                FAIL t2: x", "                FAIL t0: x"]);
}
