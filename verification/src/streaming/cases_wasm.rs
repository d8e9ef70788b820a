//! What the probes of the wasm corpus conclude. That backend takes a
//! component rather than a script, so its four probes ask what shape the body
//! has by the time it reaches the host, and whether bulk bodies survive.

use vstd::prelude::*;
use vstd::string::*;

use crate::streaming::cases::{
    body_text, debug_text, digest, digest_notes, hex, millis, note_texts, sha256_of, wrong_with,
    Exchange,
};
use crate::streaming::drive::{all_bytes, exec_note, exec_note_text};
use crate::streaming::outcome::{Measures, Outcome};
use crate::streaming::{Case, Verdict};
use crate::text::{contains, contains_text, decimal, owned, push_decimal, push_str, same_text};

verus! {

broadcast use vstd::string::group_string_axioms;

/// The bytes the component's bulk routes move: 32 MiB.
pub open spec fn bulk_bytes() -> nat {
    33554432
}

/// The notes of a component exchange: how the body arrived and how `exec`
/// ended.
pub open spec fn component_notes(e: Exchange) -> Seq<Seq<char>> {
    seq![
        "body arrived as "@ + if e.drained.streamed {
            "ResponseBody::Stream"@
        } else {
            "ResponseBody::Bytes or None"@
        },
        exec_note_text(e.exec_status),
    ]
}

/// `m` holds the numbers of the exchange, then its notes, then `extra`.
pub open spec fn component_measures_of(e: Exchange, m: Measures, extra: Seq<Seq<char>>) -> bool {
    &&& m.ttfc_ms == if e.drained.chunks@.len() == 0 {
        None
    } else {
        Some(millis(e.drained.chunks@[0].at_nanos) as u64)
    }
    &&& m.total_ms == Some(millis(e.drained.total_nanos) as u64)
    &&& m.chunks matches Some(n) && n == e.drained.chunks@.len()
    &&& m.bytes matches Some(n) && n == all_bytes(e.drained.chunks@).len()
    &&& note_texts(m.notes@) == component_notes(e) + extra
}

/// The numbers of a component exchange, and its two notes.
pub fn component_measures(e: &Exchange) -> (m: Measures)
    ensures
        component_measures_of(*e, m, Seq::empty()),
{
    let d = &e.drained;
    let ttfc = match d.ttfc() {
        Some(at) => Some((at / 1_000_000) as u64),
        None => None,
    };
    let mut notes: Vec<String> = Vec::new();
    let mut arrived = owned("body arrived as ");
    if d.streamed {
        push_str(&mut arrived, "ResponseBody::Stream");
    } else {
        push_str(&mut arrived, "ResponseBody::Bytes or None");
    }
    notes.push(arrived);
    notes.push(exec_note(&e.exec_status));
    let bytes = d.bytes();
    let m = Measures {
        ttfc_ms: ttfc,
        total_ms: Some((d.total_nanos / 1_000_000) as u64),
        chunks: Some(d.chunks.len()),
        bytes: Some(bytes.len()),
        notes,
    };
    assert(note_texts(m.notes@) =~= component_notes(*e) + Seq::<Seq<char>>::empty());
    m
}

/// The shape question: a guest that streams internally may still hand the
/// host one buffer, so this records which variant arrives.
pub fn shape_verdict(e: &Exchange) -> (v: Verdict)
    ensures
        if body_text(*e) == "hello from v3"@ {
            if e.drained.streamed {
                v.outcome is Streams
            } else {
                v.outcome is Buffers
            }
        } else {
            wrong_with(v.outcome, "unexpected body "@ + debug_text(body_text(*e)))
        },
        component_measures_of(*e, v.measures, Seq::empty()),
{
    let measures = component_measures(e);
    let text = e.text();
    let outcome = if same_text(text.as_str(), "hello from v3") {
        if e.drained.streamed {
            Outcome::Streams
        } else {
            Outcome::Buffers
        }
    } else {
        let mut d = owned("unexpected body ");
        let q = crate::streaming::cases::debug_string(&text);
        push_str(&mut d, q.as_str());
        Outcome::wrong(d)
    };
    Verdict { outcome, measures }
}

/// 32 MiB out of a guest capped at 8 MiB, compared by digest.
pub fn bulk_out_verdict(e: &Exchange) -> (v: Verdict)
    ensures
        ({
            let expected = hex(sha256_of(Seq::new(bulk_bytes(), |_k: int| 0x78u8)));
            let actual = hex(sha256_of(all_bytes(e.drained.chunks@)));
            &&& if actual == expected {
                if e.drained.streamed {
                    v.outcome is Streams
                } else {
                    v.outcome is Buffers
                }
            } else {
                wrong_with(
                    v.outcome,
                    "sha256 mismatch on "@ + decimal(all_bytes(e.drained.chunks@).len()) + " bytes of "@
                        + decimal(bulk_bytes()),
                )
            }
            &&& component_measures_of(*e, v.measures, digest_notes(expected, actual))
        }),
{
    let mut measures = component_measures(e);
    let received = e.drained.bytes();
    let bulk: Vec<u8> = vec![0x78u8; 33554432];
    assert(bulk@ =~= Seq::new(bulk_bytes(), |_k: int| 0x78u8));
    let expected = digest(bulk.as_slice());
    let actual = digest(received.as_slice());
    let outcome = if actual == expected {
        if e.drained.streamed {
            Outcome::Streams
        } else {
            Outcome::Buffers
        }
    } else {
        let mut d = owned("sha256 mismatch on ");
        push_decimal(&mut d, received.len() as u128);
        push_str(&mut d, " bytes of ");
        push_decimal(&mut d, 33554432);
        Outcome::wrong(d)
    };
    crate::streaming::cases::note_digests(&mut measures, &expected, &actual);
    Verdict { outcome, measures }
}

/// 32 MiB into the same guest: it answers with the byte count it counted,
/// so a truncated upload shows up as a number rather than as a crash.
pub fn bulk_in_verdict(e: &Exchange) -> (v: Verdict)
    ensures
        if body_text(*e) == decimal(bulk_bytes()) {
            v.outcome is Correct
        } else {
            wrong_with(
                v.outcome,
                "guest counted "@ + debug_text(body_text(*e)) + ", expected "@ + debug_text(
                    decimal(bulk_bytes()),
                ),
            )
        },
        component_measures_of(*e, v.measures, Seq::empty()),
{
    let measures = component_measures(e);
    let expected = crate::text::decimal_string(33554432);
    let text = e.text();
    let outcome = if text == expected {
        Outcome::Correct
    } else {
        let mut d = owned("guest counted ");
        let q = crate::streaming::cases::debug_string(&text);
        push_str(&mut d, q.as_str());
        push_str(&mut d, ", expected ");
        let r = crate::streaming::cases::debug_string(&expected);
        push_str(&mut d, r.as_str());
        Outcome::wrong(d)
    };
    Verdict { outcome, measures }
}

/// The note of a refusal that names the injected error.
pub open spec fn named_refusal_note() -> Seq<char> {
    "the refusal carried the upstream message"@
}

/// The verdict of an `Err` chunk mid-upload. A refusal repeating the
/// injected message has surfaced the truncation; any other refusal is still
/// a refusal. A guest that counts one chunk, or two stitched, has lost it.
pub fn upload_error_verdict(result: Result<Exchange, Verdict>) -> (v: Verdict)
    ensures
        match result {
            Err(refused) => {
                let named = match crate::streaming::outcome::detail_of(refused.outcome) {
                    Some(d) => contains(d, "connection reset"@),
                    None => false,
                };
                if named {
                    &&& v.outcome is Correct
                    &&& v.measures.ttfc_ms == refused.measures.ttfc_ms
                    &&& v.measures.total_ms == refused.measures.total_ms
                    &&& v.measures.chunks == refused.measures.chunks
                    &&& v.measures.bytes == refused.measures.bytes
                    &&& note_texts(v.measures.notes@) == note_texts(refused.measures.notes@).push(
                        named_refusal_note(),
                    )
                } else {
                    v == refused
                }
            },
            Ok(e) => {
                &&& if body_text(e) == "65536"@ {
                    wrong_with(v.outcome, "the error was dropped and the short body passed as complete"@)
                } else if body_text(e) == "131072"@ {
                    wrong_with(v.outcome, "the error was dropped and the body was silently stitched"@)
                } else {
                    v.outcome is Correct
                }
                &&& component_measures_of(
                    e,
                    v.measures,
                    seq!["guest counted "@ + debug_text(body_text(e)) + " of 131072 bytes sent"@],
                )
            },
        },
{
    match result {
        Err(verdict) => {
            let named = match verdict.outcome.detail() {
                Some(d) => contains_text(d, "connection reset"),
                None => false,
            };
            if named {
                let mut v = verdict;
                v.outcome = Outcome::Correct;
                v.measures.note(owned("the refusal carried the upstream message"));
                assert(note_texts(v.measures.notes@) =~= note_texts(verdict.measures.notes@).push(
                    named_refusal_note(),
                ));
                return v;
            }
            verdict
        },
        Ok(e) => {
            let mut measures = component_measures(&e);
            let text = e.text();
            let outcome = if same_text(text.as_str(), "65536") {
                Outcome::wrong(owned("the error was dropped and the short body passed as complete"))
            } else if same_text(text.as_str(), "131072") {
                Outcome::wrong(owned("the error was dropped and the body was silently stitched"))
            } else {
                Outcome::Correct
            };
            let mut note = owned("guest counted ");
            let q = crate::streaming::cases::debug_string(&text);
            push_str(&mut note, q.as_str());
            push_str(&mut note, " of 131072 bytes sent");
            measures.note(note);
            assert(note_texts(measures.notes@) =~= component_notes(e) + seq![
                "guest counted "@ + debug_text(body_text(e)) + " of 131072 bytes sent"@,
            ]);
            Verdict { outcome, measures }
        },
    }
}


/// Case `i` of the wasm corpus: its name, the dimension it measures, and its budget in seconds.
pub open spec fn wasm_case(i: int) -> (Seq<char>, Seq<char>, u64) {
    if i == 0 {
        ("response_buffered_shape"@, "response streaming"@, 60)
    } else if i == 1 {
        ("integrity_response_32mib_capped"@, "integrity"@, 180)
    } else if i == 2 {
        ("integrity_request_32mib_capped"@, "integrity"@, 180)
    } else {
        ("request_error_midstream"@, "mid-stream error"@, 60)
    }
}

fn wasm_case_info(i: usize) -> (r: (&'static str, &'static str, u64))
    requires
        i < 4,
    ensures
        r.0@ == wasm_case(i as int).0,
        r.1@ == wasm_case(i as int).1,
        r.2 == wasm_case(i as int).2,
{
    if i == 0 {
        ("response_buffered_shape", "response streaming", 60)
    } else if i == 1 {
        ("integrity_response_32mib_capped", "integrity", 180)
    } else if i == 2 {
        ("integrity_request_32mib_capped", "integrity", 180)
    } else {
        ("request_error_midstream", "mid-stream error", 60)
    }
}

/// The wasm corpus, in the order it runs: each case's name, dimension and
/// budget in seconds from the table, and `runs[i]` to run case `i`.
pub fn wasm_corpus<R>(runs: Vec<R>) -> (r: Vec<Case<R>>)
    requires
        runs@.len() == 4,
    ensures
        r@.len() == 4,
        forall|i: int|
            0 <= i < 4 ==> {
                &&& (#[trigger] r@[i]).name@ == wasm_case(i).0
                &&& r@[i].dimension@ == wasm_case(i).1
                &&& r@[i].budget_secs == wasm_case(i).2
                &&& r@[i].run == runs@[i]
            },
{
    let ghost all = runs@;
    let mut rest = runs;
    let mut out: Vec<Case<R>> = Vec::new();
    let mut i: usize = 0;
    while i < 4
        invariant
            i <= 4,
            all.len() == 4,
            rest@ == all.skip(i as int),
            out@.len() == i,
            forall|k: int|
                0 <= k < i ==> {
                    &&& (#[trigger] out@[k]).name@ == wasm_case(k).0
                    &&& out@[k].dimension@ == wasm_case(k).1
                    &&& out@[k].budget_secs == wasm_case(k).2
                    &&& out@[k].run == all[k]
                },
        decreases 4 - i,
    {
        let run = rest.remove(0);
        proof {
            assert(rest@ =~= all.skip(i + 1));
        }
        let (name, dimension, budget_secs) = wasm_case_info(i);
        out.push(Case { name, dimension, budget_secs, run });
        i += 1;
    }
    out
}

} // verus!
