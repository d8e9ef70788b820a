use openworkers_conformance::streaming::drive::{exec_note, BodyRead, Chunk, Drained, ExecStatus};
use openworkers_conformance::streaming::outcome::{Measures, Outcome, Probe, Run};
use openworkers_conformance::streaming::{conclude, run, select, Case, Received, Verdict};

fn case(name: &'static str, dimension: &'static str) -> Case<u32> {
    Case { name, dimension, budget_secs: 30, run: 7 }
}

fn corpus() -> Vec<Case<u32>> {
    vec![
        case("request_text", "request streaming"),
        case("response_ttfc", "response streaming"),
        case("request_json", "request streaming"),
        case("integrity_echo", "integrity"),
    ]
}

fn probe(name: &'static str, dimension: &'static str, outcome: Outcome, measures: Measures) -> Probe {
    Probe { name, dimension, outcome, measures }
}

#[test]
fn outcome_labels_and_details() {
    assert_eq!(Outcome::Streams.label(), "streams");
    assert_eq!(Outcome::Buffers.label(), "buffers");
    assert_eq!(Outcome::Correct.label(), "ok");
    assert_eq!(Outcome::wrong("w".to_string()).label(), "wrong");
    assert_eq!(Outcome::rejects("r".to_string()).label(), "rejects");
    assert_eq!(Outcome::Hangs.label(), "hangs");
    assert_eq!(Outcome::Panics { detail: "p".to_string() }.label(), "panics");
    assert_eq!(Outcome::skipped("s".to_string()).label(), "skipped");
    assert_eq!(Outcome::wrong("bad bytes".to_string()).detail(), Some("bad bytes"));
    assert_eq!(Outcome::skipped("n/a".to_string()).detail(), Some("n/a"));
    assert_eq!(Outcome::Panics { detail: "boom".to_string() }.detail(), Some("boom"));
    assert_eq!(Outcome::Streams.detail(), None);
    assert_eq!(Outcome::Hangs.detail(), None);
}

#[test]
fn measures_note_appends() {
    let mut m = Measures::default();
    assert!(m.ttfc_ms.is_none() && m.total_ms.is_none() && m.chunks.is_none() && m.bytes.is_none());
    m.note("one".to_string());
    m.note("two".to_string());
    assert_eq!(m.notes, vec!["one".to_string(), "two".to_string()]);
}

#[test]
fn verdict_new_and_either() {
    let v = Verdict::new(Outcome::Streams);
    assert_eq!(v.outcome, Outcome::Streams);
    assert!(v.measures.notes.is_empty());
    let ok: Result<Verdict, Verdict> = Ok(Verdict::new(Outcome::Buffers));
    let err: Result<Verdict, Verdict> = Err(Verdict::new(Outcome::rejects("early".to_string())));
    assert_eq!(Verdict::either(ok).outcome, Outcome::Buffers);
    assert_eq!(Verdict::either(err).outcome, Outcome::rejects("early".to_string()));
}

#[test]
fn select_keeps_name_or_dimension_matches_in_order() {
    let names = |v: Vec<Case<u32>>| v.iter().map(|c| c.name).collect::<Vec<_>>();
    assert_eq!(names(select(corpus(), None)), vec!["request_text", "response_ttfc", "request_json", "integrity_echo"]);
    assert_eq!(names(select(corpus(), Some("request"))), vec!["request_text", "request_json"]);
    assert_eq!(names(select(corpus(), Some("integrity"))), vec!["integrity_echo"]);
    assert_eq!(names(select(corpus(), Some("ttfc"))), vec!["response_ttfc"]);
    assert!(select(corpus(), Some("zzz")).is_empty());
}

#[test]
fn conclude_each_way_a_thread_can_end() {
    let c = case("hang_up", "disconnect");
    let mut m = Measures::default();
    m.note("kept".to_string());
    let p = conclude(&c, Received::Finished(Verdict { outcome: Outcome::Streams, measures: m }));
    assert_eq!((p.name, p.dimension), ("hang_up", "disconnect"));
    assert_eq!(p.outcome, Outcome::Streams);
    assert_eq!(p.measures.notes, vec!["kept".to_string()]);

    let p = conclude(&c, Received::TimedOut);
    assert_eq!(p.outcome, Outcome::Hangs);
    assert_eq!(p.measures.notes, vec!["nothing came back within 30s".to_string()]);

    let p = conclude(&c, Received::Died(Some("index out of bounds at x.rs:3".to_string())));
    assert_eq!(p.outcome, Outcome::Panics { detail: "index out of bounds at x.rs:3".to_string() });
    let p = conclude(&c, Received::Died(None));
    assert_eq!(p.outcome, Outcome::Panics { detail: "the probe thread died without a message".to_string() });

    let p = conclude(&c, Received::NotStarted("out of threads".to_string()));
    assert_eq!(p.outcome, Outcome::rejects("could not start the probe thread: out of threads".to_string()));
    assert!(p.measures.notes.is_empty());
}

#[test]
fn run_probes_each_selected_case_once() {
    let r = run("v8", corpus(), Some("request"), |c: &Case<u32>| {
        if c.name == "request_text" {
            Received::TimedOut
        } else {
            Received::Finished(Verdict::new(Outcome::Correct))
        }
    });
    assert_eq!(r.backend, "v8");
    assert_eq!(r.probes.len(), 2);
    assert_eq!((r.probes[0].name, &r.probes[0].outcome), ("request_text", &Outcome::Hangs));
    assert_eq!((r.probes[1].name, &r.probes[1].outcome), ("request_json", &Outcome::Correct));
}

#[test]
fn run_render_exact() {
    let mut m = Measures::default();
    m.ttfc_ms = Some(12);
    m.total_ms = Some(340);
    m.chunks = Some(4);
    m.bytes = Some(1024);
    m.note("body arrived as ResponseBody::Stream".to_string());
    let mut only_total = Measures::default();
    only_total.total_ms = Some(5);
    let r = Run {
        backend: "v8",
        probes: vec![
            probe("request_text", "request streaming", Outcome::Streams, m),
            probe("a", "request streaming", Outcome::wrong("bad".to_string()), only_total),
            probe("hang_up", "disconnect", Outcome::Hangs, Measures::default()),
        ],
    };
    let expected = [
        "streaming: v8\n",
        "\n",
        "request streaming\n",
        "  request_text  streams   ttfc 12ms / total 340ms  4 chunks  1024 bytes\n",
        "                   body arrived as ResponseBody::Stream\n",
        "  a             wrong     total 5ms\n",
        "                -> bad\n",
        "disconnect\n",
        "  hang_up       hangs   \n",
        "\n",
        "streams 1, wrong 1, hangs 1\n",
    ]
    .concat();
    assert_eq!(r.render(), expected);
}

#[test]
fn tally_counts_each_probe_once_in_first_seen_order() {
    let r = Run {
        backend: "boa",
        probes: vec![
            probe("a", "d", Outcome::Buffers, Measures::default()),
            probe("b", "d", Outcome::Streams, Measures::default()),
            probe("c", "d", Outcome::Buffers, Measures::default()),
            probe("d", "e", Outcome::Buffers, Measures::default()),
        ],
    };
    assert_eq!(r.tally(), "buffers 3, streams 1");
    let empty = Run { backend: "x", probes: Vec::new() };
    assert_eq!(empty.tally(), "");
    assert_eq!(empty.render(), "streaming: x\n\n\n\n");
}

fn drained(chunks: Vec<(u128, &[u8])>, total: u128) -> Drained {
    Drained {
        streamed: true,
        chunks: chunks.into_iter().map(|(at, b)| Chunk { at_nanos: at, bytes: b.to_vec() }).collect(),
        error: None,
        total_nanos: total,
    }
}

#[test]
fn drained_bytes_text_and_first_chunk() {
    let d = drained(vec![(5, b"Hel"), (9, b"lo")], 20);
    assert_eq!(d.bytes(), b"Hello".to_vec());
    assert_eq!(d.text(), "Hello");
    assert_eq!(d.ttfc(), Some(5));
    let invalid = drained(vec![(1, &[0x66, 0xff, 0x6f])], 2);
    assert_eq!(invalid.text(), "f\u{fffd}o");
    let none = drained(vec![], 3);
    assert_eq!(none.ttfc(), None);
    assert_eq!(none.text(), "");
}

#[test]
fn exec_note_each_way_exec_ends() {
    assert_eq!(exec_note(&ExecStatus::Running), "exec was still running when the probe ended");
    assert_eq!(exec_note(&ExecStatus::Returned), "exec returned Ok");
    assert_eq!(exec_note(&ExecStatus::Failed("Timeout".to_string())), "exec returned Err(Timeout)");
}

#[test]
fn tally_orders_by_count_then_first_appearance() {
    let r = Run {
        backend: "jsc",
        probes: vec![
            probe("a", "d", Outcome::rejects("x".to_string()), Measures::default()),
            probe("b", "d", Outcome::rejects("x".to_string()), Measures::default()),
            probe("c", "d", Outcome::rejects("x".to_string()), Measures::default()),
            probe("d", "d", Outcome::Streams, Measures::default()),
            probe("e", "d", Outcome::Correct, Measures::default()),
            probe("f", "d", Outcome::Correct, Measures::default()),
        ],
    };
    assert_eq!(r.tally(), "rejects 3, ok 2, streams 1");
    let r = Run {
        backend: "boa",
        probes: vec![
            probe("a", "d", Outcome::Streams, Measures::default()),
            probe("b", "d", Outcome::Hangs, Measures::default()),
            probe("c", "d", Outcome::Hangs, Measures::default()),
            probe("d", "d", Outcome::Buffers, Measures::default()),
        ],
    };
    assert_eq!(r.tally(), "hangs 2, streams 1, buffers 1");
}

#[test]
fn draining_keeps_chunks_until_an_error_or_the_end() {
    let mut d = Drained { streamed: true, chunks: Vec::new(), error: None, total_nanos: 0 };
    assert!(d.take(5, BodyRead::Chunk(b"ab".to_vec())));
    assert!(d.take(9, BodyRead::Chunk(Vec::new())));
    assert!(!d.take(12, BodyRead::Failed("reset".to_string())));
    assert_eq!(d.chunks.len(), 2);
    assert_eq!((d.chunks[0].at_nanos, d.chunks[1].at_nanos), (5, 9));
    assert_eq!(d.error.as_deref(), Some("reset"));
    let mut e = Drained { streamed: false, chunks: Vec::new(), error: None, total_nanos: 0 };
    assert!(!e.take(1, BodyRead::Ended));
    assert!(e.chunks.is_empty() && e.error.is_none());
}
