use openworkers_conformance::streaming::cases::{
    against, backpressure_verdict, checked, chunks_of, digest, echo_verdict, echoed_verdict, follow_up_outcome,
    generated_verdict, guest_error_verdict, heap_cap_skip, line_count, no_response, paced_verdict, payload,
    pipeline_verdict, recovery_verdict, render, request_error_verdict, shaped, slow_drain_verdict, stamp_spread,
    transform_verdict, unread_verdict, Exchange, FeedReport, CHUNK,
};
use openworkers_conformance::streaming::cases::{
    corpus, follow_up_delivered, follow_up_head, follow_up_stuck, follow_up_unusable, hang_up_result, init_failure,
    init_refusal, no_head, HangUpEvent,
};
use openworkers_conformance::streaming::drive::{Chunk, Drained, ExecStatus};
use openworkers_conformance::streaming::outcome::{Measures, Outcome};

const MS: u128 = 1_000_000;

fn exchange(status: u16, chunks: Vec<(u128, &[u8])>, total_ms: u128) -> Exchange {
    Exchange {
        status,
        drained: Drained {
            streamed: true,
            chunks: chunks.into_iter().map(|(at, b)| Chunk { at_nanos: at * MS, bytes: b.to_vec() }).collect(),
            error: None,
            total_nanos: total_ms * MS,
        },
        exec_status: ExecStatus::Returned,
    }
}

fn body(text: &str) -> Exchange {
    exchange(200, vec![(3, text.as_bytes())], 10)
}

#[test]
fn render_fills_each_placeholder() {
    let vars = vec![("CHUNKS", "8".to_string()), ("DELAY", "40".to_string())];
    assert_eq!(render("for (i < {CHUNKS}) sleep({DELAY}); // {CHUNKS}", &vars), "for (i < 8) sleep(40); // 8");
    assert_eq!(render("{A}", &vec![("A", "{B}".to_string()), ("B", "x".to_string())]), "x");
    assert_eq!(render("{MISSING} stays", &vars), "{MISSING} stays");
    assert_eq!(render("{{CHUNKS}}", &vars), "{8}");
}

#[test]
fn payload_counts_bytes_in_each_chunk() {
    let p = payload(2);
    assert_eq!(p.len(), 2 * CHUNK);
    assert_eq!((p[0], p[1], p[7], p[8], p[255], p[256], p[CHUNK - 1]), (0, 0, 0, 8, 255, 0, 255));
    assert_eq!((p[CHUNK], p[CHUNK + 1], p[CHUNK + 8], p[CHUNK + 300]), (1, 0, 8, 44));
    assert!(payload(0).is_empty());
    let big = payload(300);
    assert_eq!((big[258 * CHUNK], big[258 * CHUNK + 1]), (2, 1));
}

#[test]
fn chunks_of_cuts_the_last_piece_short() {
    assert_eq!(chunks_of(&[1, 2, 3, 4, 5], 2), vec![vec![1, 2], vec![3, 4], vec![5]]);
    assert_eq!(chunks_of(&[1, 2, 3, 4], 2), vec![vec![1, 2], vec![3, 4]]);
    assert!(chunks_of(&[], 3).is_empty());
    assert_eq!(chunks_of(&[9], 64), vec![vec![9]]);
}

#[test]
fn digest_is_sha256_in_lower_hex() {
    assert_eq!(digest(b""), "e3b0c44298fc1c149afbf4c8996fb92427ae41e4649b934ca495991b7852b855");
    assert_eq!(digest(b"abc"), "ba7816bf8f01cfea414140de5dae2223b00361a396177a9cb410ff61f20015ad");
}

#[test]
fn against_reports_the_mismatch() {
    assert_eq!(against(&body("Got: Hello World"), "Got: Hello World"), Outcome::Correct);
    let e = exchange(500, vec![(1, b"nope \"x\"")], 2);
    assert_eq!(
        against(&e, "Got: Hello World"),
        Outcome::wrong("expected \"Got: Hello World\", got \"nope \\\"x\\\"\" (status 500)".to_string())
    );
    let long = "y".repeat(130);
    let e = body(&long);
    assert_eq!(
        against(&e, "short"),
        Outcome::wrong(format!("expected \"short\", got \"{}...\" (status 200)", "y".repeat(120)))
    );
}

#[test]
fn measures_carry_the_exchange() {
    let e = exchange(200, vec![(12, b"ab"), (40, b"cde")], 40);
    let m = e.measures();
    assert_eq!((m.ttfc_ms, m.total_ms, m.chunks, m.bytes), (Some(12), Some(40), Some(2), Some(5)));
    assert_eq!(m.notes, vec!["body arrived as ResponseBody::Stream".to_string(), "exec returned Ok".to_string()]);

    let mut e = exchange(200, vec![(7, b"a"), (8, b"b")], 7);
    e.drained.streamed = false;
    e.drained.error = Some("reset".to_string());
    e.exec_status = ExecStatus::Running;
    let m = e.measures();
    assert_eq!(
        m.notes,
        vec![
            "body arrived as ResponseBody::Bytes or None".to_string(),
            "exec was still running when the probe ended".to_string(),
            "every chunk arrived at the same instant".to_string(),
            "body channel carried Err(reset)".to_string(),
        ]
    );
    let empty = exchange(204, vec![], 3);
    let m = empty.measures();
    assert_eq!((m.ttfc_ms, m.chunks, m.bytes), (None, Some(0), Some(0)));
}

#[test]
fn checked_judges_and_measures() {
    let v = checked(&body("name=Alice,age=30"), "name=Alice,age=30");
    assert_eq!(v.outcome, Outcome::Correct);
    assert_eq!(v.measures.notes.len(), 2);
    assert_eq!(checked(&body("x"), "y").outcome.label(), "wrong");
}

#[test]
fn shaped_tells_streaming_from_buffering() {
    let v = shaped(&body("chunks=3:one|two|three"), "chunks=3:one|two|three", "chunks=1:onetwothree");
    assert_eq!(v.outcome, Outcome::Streams);
    assert_eq!(v.measures.notes[2], "guest reported \"chunks=3:one|two|three\"");
    let v = shaped(&body("chunks=1:onetwothree"), "chunks=3:one|two|three", "chunks=1:onetwothree");
    assert_eq!(v.outcome, Outcome::Buffers);
    let v = shaped(&body("?"), "s", "b");
    assert_eq!(v.outcome, Outcome::wrong("expected \"s\", got \"?\" (status 200)".to_string()));
}

#[test]
fn request_error_verdict_wants_the_read_to_throw() {
    assert_eq!(request_error_verdict(&body("threw:partial:TypeError: boom")).outcome, Outcome::Correct);
    assert_eq!(
        request_error_verdict(&body("done:partial")).outcome,
        Outcome::wrong("the error became a clean end of body: truncation is silent".to_string())
    );
    assert_eq!(
        request_error_verdict(&body("other")).outcome,
        Outcome::wrong("expected \"threw:partial:<error>\", got \"other\" (status 200)".to_string())
    );
}

#[test]
fn stamp_spread_reads_the_second_field() {
    assert_eq!(stamp_spread("chunk0:100\nchunk1: 150 \nnoise\nchunk2:+220:tail\r\n"), Some(120));
    assert_eq!(stamp_spread("a:300\nb:100"), Some(0));
    assert_eq!(stamp_spread("no stamps here\nx:y"), None);
    assert_eq!(stamp_spread(""), None);
    assert_eq!(stamp_spread("a:18446744073709551616\nb:5"), Some(0));
    assert_eq!(line_count("a\nb\r\nc\n"), 3);
    assert_eq!(line_count(""), 0);
}

#[test]
fn no_response_says_why_exec_gave_up() {
    let v = no_response("no response head".to_string(), ExecStatus::Failed("Timeout".to_string()));
    assert_eq!(v.outcome, Outcome::rejects("no response head: Timeout".to_string()));
    assert_eq!(v.measures.notes, vec!["exec returned Err(Timeout)".to_string()]);
    let v = no_response("no response head".to_string(), ExecStatus::Running);
    assert_eq!(v.outcome, Outcome::rejects("no response head".to_string()));
}

#[test]
fn unread_verdict_notes_the_producer() {
    let feed = FeedReport::Finished { sent: 3, span_nanos: 25 * MS + 7, refused: true };
    let v = unread_verdict(&body("ignored"), "ignored", &feed, 5, true);
    assert_eq!(v.outcome, Outcome::Correct);
    assert_eq!(v.measures.notes[2], "producer sent 3 of 5 chunks in 25ms, channel closed");
    let feed = FeedReport::Finished { sent: 10, span_nanos: 0, refused: false };
    let v = unread_verdict(&body("first=chunk1"), "first=chunk1", &feed, 10, false);
    assert_eq!(v.measures.notes[2], "producer sent 10 of 10 chunks, channel stayed open");
    let v = unread_verdict(&body("x"), "x", &FeedReport::Blocked, 5, true);
    assert_eq!(v.measures.notes[2], "producer was still blocked 2s after the response");
    let v = unread_verdict(&body("x"), "x", &FeedReport::Failed("panicked".to_string()), 5, true);
    assert_eq!(v.measures.notes[2], "producer task failed: panicked");
}

fn stamped(lines: usize, step: u64) -> String {
    (0..lines).map(|i| format!("chunk{}:{}\n", i, 1000 + i as u64 * step)).collect()
}

#[test]
fn paced_verdict_compares_first_chunk_with_total() {
    let text = stamped(8, 40);
    let early = exchange(200, vec![(10, text.as_bytes())], 300);
    let v = paced_verdict(&early);
    assert_eq!(v.outcome, Outcome::Streams);
    assert_eq!(v.measures.notes[2], "guest produced over 280ms of its own clock");
    let late = exchange(200, vec![(290, text.as_bytes())], 300);
    assert_eq!(paced_verdict(&late).outcome, Outcome::Buffers);
    let short = exchange(200, vec![(1, b"a:1\nb:2")], 300);
    assert_eq!(paced_verdict(&short).outcome, Outcome::wrong("expected 8 stamped lines, got 2".to_string()));
    let nothing = exchange(200, vec![], 300);
    assert_eq!(
        paced_verdict(&nothing).outcome,
        Outcome::wrong("no body at all: the paced guest produced nothing".to_string())
    );
}

#[test]
fn pipeline_verdict_wants_32_lines() {
    let text = stamped(32, 1);
    let v = pipeline_verdict(&body(&text));
    assert_eq!(v.outcome, Outcome::Correct);
    assert_eq!(v.measures.notes[2], "the guest closed on exactly 2 x the 16-slot high-water mark");
    let text = stamped(31, 1);
    assert_eq!(
        pipeline_verdict(&body(&text)).outcome,
        Outcome::wrong("expected 32 stamped lines, got 31".to_string())
    );
}

#[test]
fn guest_error_verdict_each_way() {
    let mut e = body("chunk0");
    e.drained.error = Some("boom".to_string());
    assert_eq!(guest_error_verdict(&e).outcome, Outcome::Correct);
    let v = guest_error_verdict(&body("chunk0chunk1"));
    assert_eq!(
        v.outcome,
        Outcome::wrong("the guest error became a clean end of body: truncation is silent".to_string())
    );
    assert_eq!(v.measures.notes[2], "host received \"chunk0chunk1\"");
    let empty = exchange(200, vec![], 5);
    assert_eq!(
        guest_error_verdict(&empty).outcome,
        Outcome::rejects("no body: the error swallowed the whole response".to_string())
    );
    assert_eq!(guest_error_verdict(&body("odd")).outcome, Outcome::wrong("unexpected body \"odd\"".to_string()));
}

#[test]
fn follow_up_and_recovery() {
    assert_eq!(follow_up_outcome(Some((503, 1))), Outcome::wrong("the follow-up answered 503".to_string()));
    assert_eq!(
        follow_up_outcome(Some((200, 0))),
        Outcome::wrong("the follow-up answered with no body at all".to_string())
    );
    assert_eq!(follow_up_outcome(Some((200, 2))), Outcome::Correct);
    assert_eq!(follow_up_outcome(None), Outcome::rejects("the worker was unusable after the client left".to_string()));
    let v = recovery_verdict(Outcome::Correct, 1_500 * MS, Measures::default());
    assert_eq!(v.outcome, Outcome::wrong("the worker recovered, but only 1500ms after the client left".to_string()));
    assert_eq!(recovery_verdict(Outcome::Correct, 1_000 * MS, Measures::default()).outcome, Outcome::Correct);
    assert_eq!(recovery_verdict(Outcome::Hangs, 5_000 * MS, Measures::default()).outcome, Outcome::Hangs);
}

#[test]
fn echo_verdict_counts_chunks_out() {
    let e = exchange(200, vec![(1, b"Hel"), (2, b"lo "), (3, b"Wor"), (4, b"ld!")], 4);
    let v = echo_verdict(&e);
    assert_eq!(v.outcome, Outcome::Streams);
    assert_eq!(v.measures.notes[2], "4 chunks in, 4 chunks out");
    let v = echo_verdict(&body("Hello World!"));
    assert_eq!(v.outcome, Outcome::Correct);
    assert_eq!(v.measures.notes[2], "4 chunks in, 1 chunks out");
    assert_eq!(echo_verdict(&body("Hello")).outcome.label(), "wrong");
}

#[test]
fn transform_verdict_wants_one_double_a_chunk() {
    let feed = FeedReport::Finished { sent: 5, span_nanos: 120 * MS, refused: false };
    let e = exchange(200, vec![(1, b"2"), (2, b"4"), (3, b"6"), (4, b"8"), (5, b"10")], 5);
    let v = transform_verdict(&e, &feed);
    assert_eq!(v.outcome, Outcome::Streams);
    assert_eq!(v.measures.notes[2], "producer sent 5 of 5 numbers over 120ms");
    assert_eq!(v.measures.notes[3], "host received [\"2\", \"4\", \"6\", \"8\", \"10\"]");
    let v = transform_verdict(&body("246810"), &FeedReport::Blocked);
    assert_eq!(v.outcome, Outcome::Buffers);
    assert_eq!(v.measures.notes[2], "producer was still blocked 2s after the response");
    assert_eq!(v.measures.notes[3], "host received [\"246810\"]");
    let none = exchange(200, vec![], 5);
    let v = transform_verdict(&none, &feed);
    assert_eq!(v.outcome, Outcome::wrong("expected \"246810\", got \"\" (status 200)".to_string()));
    assert_eq!(v.measures.notes[3], "host received []");
}

#[test]
fn backpressure_verdict_against_the_floor() {
    let fast = FeedReport::Finished { sent: 10, span_nanos: 400 * MS, refused: false };
    let v = backpressure_verdict(&body("chunks=10,sum=55"), 2, 10, 100, &fast);
    assert_eq!(v.outcome, Outcome::Streams);
    assert_eq!(v.measures.notes[2], "producer pushed 10 chunks in 400ms through a 2-slot channel");
    assert_eq!(v.measures.notes[3], "backpressure floor for this cadence is 400ms");
    let collapsed = FeedReport::Finished { sent: 10, span_nanos: 3 * MS, refused: false };
    assert_eq!(backpressure_verdict(&body("chunks=10,sum=55"), 2, 10, 100, &collapsed).outcome, Outcome::Buffers);
    let v = backpressure_verdict(&body("chunks=9,sum=45"), 2, 10, 100, &fast);
    assert_eq!(v.outcome.label(), "wrong");
    assert_eq!(v.measures.notes.len(), 3);
    let v = backpressure_verdict(&body("chunks=10,sum=55"), 2, 10, 100, &FeedReport::Blocked);
    assert_eq!(v.outcome, Outcome::Correct);
    assert_eq!(v.measures.notes[2], "producer was still blocked 5s after the response");
    let v = backpressure_verdict(&body("chunks=3,sum=6"), 16, 3, 100, &collapsed);
    assert_eq!(v.outcome, Outcome::Streams);
    assert_eq!(v.measures.notes[3], "backpressure floor for this cadence is 0ms");
}

#[test]
fn slow_drain_verdict_compares_clocks() {
    let text = stamped(60, 20);
    let e = exchange(200, vec![(1, text.as_bytes())], 1500);
    let v = slow_drain_verdict(&e);
    assert_eq!(v.outcome, Outcome::Streams);
    assert_eq!(v.measures.notes[2], "guest produced over 1180ms while the host read over 1500ms");
    let quick = stamped(60, 1);
    assert_eq!(slow_drain_verdict(&exchange(200, vec![(1, quick.as_bytes())], 1500)).outcome, Outcome::Buffers);
    assert_eq!(
        slow_drain_verdict(&body("a:1")).outcome,
        Outcome::wrong("expected 60 stamped lines, got 1".to_string())
    );
    let unstamped: String = (0..60).map(|_| "line\n").collect();
    assert_eq!(
        slow_drain_verdict(&body(&unstamped)).outcome,
        Outcome::wrong("no guest timestamps to compare".to_string())
    );
}

#[test]
fn generated_and_echoed_verdicts_compare_digests() {
    let bulk = payload(512);
    let pieces = chunks_of(&bulk, CHUNK);
    let e = Exchange {
        status: 200,
        drained: Drained {
            streamed: true,
            chunks: pieces.into_iter().map(|b| Chunk { at_nanos: 5, bytes: b }).collect(),
            error: None,
            total_nanos: 10,
        },
        exec_status: ExecStatus::Returned,
    };
    let v = generated_verdict(&e);
    assert_eq!(v.outcome, Outcome::Correct);
    assert!(v.measures.notes[2].starts_with("sha256 expected "));
    assert_eq!(v.measures.notes[2].len(), "sha256 expected ".len() + 16);
    assert_eq!(&v.measures.notes[2]["sha256 expected ".len()..], &v.measures.notes[3]["sha256 received ".len()..]);

    let short = body("abc");
    let v = generated_verdict(&short);
    assert_eq!(v.outcome, Outcome::wrong("sha256 3 bytes out, expected 33554432 bytes".to_string()));
    assert_eq!(v.measures.notes[3], "sha256 received ba7816bf8f01cfea");

    let sent = digest(b"abc");
    assert_eq!(echoed_verdict(&short, &sent, 3).outcome, Outcome::Correct);
    let v = echoed_verdict(&body("abd"), &sent, 3);
    assert_eq!(v.outcome, Outcome::wrong("sha256 mismatch on 3 bytes back of 3".to_string()));
    assert_eq!(v.measures.notes[2], "sha256 expected ba7816bf8f01cfea");
}

#[test]
fn heap_cap_skip_says_why() {
    let v = heap_cap_skip(64, "init failed");
    assert_eq!(v.outcome, Outcome::skipped("the backend does not start under a 64MB heap cap: init failed".to_string()));
    assert!(v.measures.notes.is_empty());
}

#[test]
fn a_reordered_chunk_changes_the_payload() {
    let p = payload(4);
    let mut q = p.clone();
    let (a, b) = q.split_at_mut(2 * CHUNK);
    a[CHUNK..2 * CHUNK].swap_with_slice(&mut b[..CHUNK]);
    assert_ne!(q, p);
    assert_ne!(digest(&q), digest(&p));
    let chunks = chunks_of(&payload(300), CHUNK);
    for (i, x) in chunks.iter().enumerate() {
        for y in &chunks[i + 1..] {
            assert_ne!(x, y);
        }
    }
}

#[test]
fn follow_up_notes_each_step() {
    let mut m = Measures::default();
    follow_up_head(&mut m, 12_700_000, 200);
    assert_eq!(follow_up_delivered(&mut m, 200, 3), Outcome::Correct);
    assert_eq!(
        m.notes,
        vec!["the follow-up head arrived 12ms in with status 200".to_string(), "the follow-up delivered 3 chunks".to_string()]
    );
    let mut m = Measures::default();
    let o = follow_up_unusable(&mut m, &ExecStatus::Failed("Terminated".to_string()));
    assert_eq!(o, Outcome::rejects("the worker was unusable after the client left".to_string()));
    assert_eq!(
        m.notes,
        vec!["the follow-up fetch: the worker sent no response".to_string(), "exec returned Err(Terminated)".to_string()]
    );
    let mut m = Measures::default();
    assert_eq!(follow_up_stuck(&mut m, 5), Outcome::Hangs);
    assert_eq!(m.notes, vec!["the follow-up fetch was still going 5s in".to_string()]);
}

#[test]
fn hang_up_result_each_way() {
    let mut m = Measures::default();
    let r = hang_up_result(HangUpEvent::NoHead(ExecStatus::Returned), &mut m);
    assert_eq!(r, Err(Outcome::rejects("the worker sent no response".to_string())));
    assert_eq!(m.notes, vec!["exec returned Ok".to_string()]);

    let mut m = Measures::default();
    let r = hang_up_result(HangUpEvent::NotStreamed, &mut m);
    assert_eq!(r, Err(Outcome::skipped("the backend never streams a response".to_string())));
    assert_eq!(m.notes, vec!["the body was not a stream, so there was nothing to cancel".to_string()]);

    let mut m = Measures::default();
    let read = HangUpEvent::Read {
        taken: 3,
        read_nanos: 31_000_000,
        recovery_nanos: 4_500_000,
        done: ExecStatus::Returned,
    };
    assert_eq!(hang_up_result(read, &mut m), Ok(4_500_000));
    assert_eq!((m.chunks, m.total_ms), (Some(3), Some(31)));
    assert_eq!(
        m.notes,
        vec![
            "3 chunks read over 31ms before hanging up".to_string(),
            "exec returned Ok".to_string(),
            "exec came back 4ms after the client left".to_string(),
        ]
    );

    let mut m = Measures::default();
    let stuck = HangUpEvent::Read { taken: 1, read_nanos: 0, recovery_nanos: 5_000_000_000, done: ExecStatus::Running };
    assert_eq!(hang_up_result(stuck, &mut m), Err(Outcome::Hangs));
    assert_eq!(m.total_ms, Some(0));
    assert_eq!(m.notes[1], "exec was still running when the probe ended");
    let mut m = Measures::default();
    let late = HangUpEvent::Read { taken: 1, read_nanos: 100_000_000, recovery_nanos: 5_000_000, done: ExecStatus::Returned };
    assert_eq!(hang_up_result(late, &mut m), Ok(5_000_000));
    assert_eq!(m.total_ms, Some(100));
    assert_eq!(m.notes[2], "exec came back 5ms after the client left");
}

#[test]
fn refusals_say_the_worker_would_not_start_or_answer() {
    assert_eq!(init_failure("OutOfMemory"), "worker init failed: OutOfMemory");
    let v = init_refusal("OutOfMemory");
    assert_eq!(v.outcome, Outcome::rejects("worker init failed: OutOfMemory".to_string()));
    assert!(v.measures.notes.is_empty());
    let v = no_head(ExecStatus::Failed("CpuTimeLimit".to_string()));
    assert_eq!(v.outcome, Outcome::rejects("the worker sent no response: CpuTimeLimit".to_string()));
    assert_eq!(v.measures.notes, vec!["exec returned Err(CpuTimeLimit)".to_string()]);
    assert_eq!(no_head(ExecStatus::Running).outcome, Outcome::rejects("the worker sent no response".to_string()));
}

#[test]
fn the_javascript_corpus_table() {
    let cases = corpus((0..25).collect::<Vec<u32>>());
    assert_eq!(cases.len(), 25);
    assert!(cases.iter().enumerate().all(|(i, c)| c.run == i as u32));
    assert_eq!((cases[0].name, cases[0].dimension, cases[0].budget_secs), ("request_text", "request streaming", 30));
    assert_eq!((cases[10].name, cases[10].dimension), ("request_error_midstream", "mid-stream error"));
    assert_eq!((cases[16].name, cases[16].dimension), ("disconnect_recovery", "cancellation"));
    assert_eq!((cases[17].name, cases[17].dimension), ("bidirectional_transform", "bidirectional"));
    assert_eq!(
        (cases[24].name, cases[24].dimension, cases[24].budget_secs),
        ("integrity_echo_32mib_capped", "integrity", 180)
    );
    assert_eq!(cases.iter().filter(|c| c.budget_secs == 180).count(), 3);
    let mut names: Vec<&str> = cases.iter().map(|c| c.name).collect();
    names.sort();
    names.dedup();
    assert_eq!(names.len(), 25);
}
