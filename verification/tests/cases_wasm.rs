use openworkers_conformance::streaming::cases::Exchange;
use openworkers_conformance::streaming::cases_wasm::{
    bulk_in_verdict, bulk_out_verdict, component_measures, shape_verdict, upload_error_verdict, wasm_corpus,
};
use openworkers_conformance::streaming::drive::{Chunk, Drained, ExecStatus};
use openworkers_conformance::streaming::outcome::{Measures, Outcome};
use openworkers_conformance::streaming::Verdict;

fn exchange(streamed: bool, text: &str) -> Exchange {
    Exchange {
        status: 200,
        drained: Drained {
            streamed,
            chunks: vec![Chunk { at_nanos: 4_000_000, bytes: text.as_bytes().to_vec() }, Chunk {
                at_nanos: 9_000_000,
                bytes: Vec::new(),
            }],
            error: Some("ignored here".to_string()),
            total_nanos: 9_000_000,
        },
        exec_status: ExecStatus::Returned,
    }
}

#[test]
fn component_measures_carry_two_notes() {
    let m = component_measures(&exchange(false, "abc"));
    assert_eq!((m.ttfc_ms, m.total_ms, m.chunks, m.bytes), (Some(4), Some(9), Some(2), Some(3)));
    assert_eq!(m.notes, vec!["body arrived as ResponseBody::Bytes or None".to_string(), "exec returned Ok".to_string()]);
}

#[test]
fn shape_verdict_records_the_variant() {
    assert_eq!(shape_verdict(&exchange(true, "hello from v3")).outcome, Outcome::Streams);
    assert_eq!(shape_verdict(&exchange(false, "hello from v3")).outcome, Outcome::Buffers);
    assert_eq!(shape_verdict(&exchange(true, "hi")).outcome, Outcome::wrong("unexpected body \"hi\"".to_string()));
}

#[test]
fn bulk_out_verdict_on_a_short_body() {
    let v = bulk_out_verdict(&exchange(true, "xxxx"));
    assert_eq!(v.outcome, Outcome::wrong("sha256 mismatch on 4 bytes of 33554432".to_string()));
    assert_eq!(v.measures.notes.len(), 4);
    assert!(v.measures.notes[2].starts_with("sha256 expected "));
}

#[test]
fn bulk_in_verdict_wants_the_full_count() {
    assert_eq!(bulk_in_verdict(&exchange(true, "33554432")).outcome, Outcome::Correct);
    assert_eq!(
        bulk_in_verdict(&exchange(true, "65536")).outcome,
        Outcome::wrong("guest counted \"65536\", expected \"33554432\"".to_string())
    );
}

#[test]
fn upload_error_verdict_each_way() {
    let mut refused = Verdict::new(Outcome::rejects("exec failed: connection reset by peer".to_string()));
    refused.measures.note("exec returned Err(x)".to_string());
    let v = upload_error_verdict(Err(refused));
    assert_eq!(v.outcome, Outcome::Correct);
    assert_eq!(
        v.measures.notes,
        vec!["exec returned Err(x)".to_string(), "the refusal carried the upstream message".to_string()]
    );
    let other = Verdict { outcome: Outcome::rejects("worker init failed".to_string()), measures: Measures::default() };
    assert_eq!(upload_error_verdict(Err(other)).outcome, Outcome::rejects("worker init failed".to_string()));
    let v = upload_error_verdict(Ok(exchange(true, "65536")));
    assert_eq!(v.outcome, Outcome::wrong("the error was dropped and the short body passed as complete".to_string()));
    assert_eq!(v.measures.notes[2], "guest counted \"65536\" of 131072 bytes sent");
    assert_eq!(
        upload_error_verdict(Ok(exchange(true, "131072"))).outcome,
        Outcome::wrong("the error was dropped and the body was silently stitched".to_string())
    );
    assert_eq!(upload_error_verdict(Ok(exchange(true, "0"))).outcome, Outcome::Correct);
}

#[test]
fn the_wasm_corpus_table() {
    let cases = wasm_corpus(vec!['a', 'b', 'c', 'd']);
    let rows: Vec<(&str, &str, u64, char)> = cases.iter().map(|c| (c.name, c.dimension, c.budget_secs, c.run)).collect();
    assert_eq!(
        rows,
        vec![
            ("response_buffered_shape", "response streaming", 60, 'a'),
            ("integrity_response_32mib_capped", "integrity", 180, 'b'),
            ("integrity_request_32mib_capped", "integrity", 180, 'c'),
            ("request_error_midstream", "mid-stream error", 60, 'd'),
        ]
    );
}
