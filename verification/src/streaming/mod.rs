//! The streaming battery: what each backend actually does with a body that
//! does not arrive all at once.
//!
//! Separate from the guest test suite on purpose. The suite asks what a script
//! can observe about itself; this asks what crosses the host boundary, which
//! only the host can see. A probe that reports `buffers` has succeeded at its
//! job.

pub mod cases;
pub mod cases_wasm;
pub mod drive;
pub mod outcome;

use vstd::prelude::*;
use vstd::string::*;

use crate::text::{contains, contains_text, decimal, owned, push_decimal, push_str};
use outcome::{Measures, Outcome, Probe, Run};

verus! {

broadcast use vstd::string::group_string_axioms;

/// What one probe concluded, and the numbers behind it.
pub struct Verdict {
    pub outcome: Outcome,
    pub measures: Measures,
}

/// Measures that hold nothing yet.
pub open spec fn is_empty_measures(m: Measures) -> bool {
    &&& m.ttfc_ms is None
    &&& m.total_ms is None
    &&& m.chunks is None
    &&& m.bytes is None
    &&& m.notes@.len() == 0
}

impl Verdict {
    /// A verdict with no numbers behind it yet.
    pub fn new(outcome: Outcome) -> (r: Self)
        ensures
            r.outcome == outcome,
            is_empty_measures(r.measures),
    {
        Verdict { outcome, measures: Measures::default() }
    }

    /// A case body uses `Err` to leave early, so both arms are verdicts.
    pub fn either(result: Result<Self, Self>) -> (r: Self)
        ensures
            r == match result {
                Ok(v) => v,
                Err(v) => v,
            },
    {
        match result {
            Ok(verdict) => verdict,
            Err(verdict) => verdict,
        }
    }
}

/// One probe of the corpus: its name, the dimension it measures, how long it
/// may take in seconds, and what runs it.
pub struct Case<R> {
    pub name: &'static str,
    pub dimension: &'static str,
    pub budget_secs: u64,
    pub run: R,
}

/// The filter keeps a case when it occurs in the case's name or dimension,
/// or when there is no filter.
pub open spec fn selects(filter: Option<Seq<char>>, name: Seq<char>, dimension: Seq<char>) -> bool {
    match filter {
        Some(f) => contains(name, f) || contains(dimension, f),
        None => true,
    }
}

/// The cases of `corpus` the filter keeps, in corpus order.
pub open spec fn selected<R>(corpus: Seq<Case<R>>, filter: Option<Seq<char>>) -> Seq<Case<R>>
    decreases corpus.len(),
{
    if corpus.len() == 0 {
        Seq::empty()
    } else if selects(filter, corpus.last().name@, corpus.last().dimension@) {
        selected(corpus.drop_last(), filter).push(corpus.last())
    } else {
        selected(corpus.drop_last(), filter)
    }
}

/// The text of the filter, if there is one.
pub open spec fn filter_view(filter: Option<&str>) -> Option<Seq<char>> {
    match filter {
        Some(f) => Some(f@),
        None => None,
    }
}

/// The probes a run will start, in corpus order.
pub fn select<R>(corpus: Vec<Case<R>>, filter: Option<&str>) -> (r: Vec<Case<R>>)
    ensures
        r@ == selected(corpus@, filter_view(filter)),
{
    let ghost input = corpus@;
    let n = corpus.len();
    let mut rest = corpus;
    let mut out: Vec<Case<R>> = Vec::new();
    let mut i: usize = 0;
    while rest.len() > 0
        invariant
            input.len() == n,
            i + rest@.len() == n,
            rest@ == input.skip(i as int),
            out@ == selected(input.take(i as int), filter_view(filter)),
        decreases rest@.len(),
    {
        let case = rest.remove(0);
        proof {
            assert(rest@ =~= input.skip(i + 1));
            assert(input.take(i + 1).drop_last() =~= input.take(i as int));
            assert(input.take(i + 1).last() == case);
        }
        let keep = match filter {
            Some(f) => contains_text(case.name, f) || contains_text(case.dimension, f),
            None => true,
        };
        if keep {
            out.push(case);
        }
        i += 1;
    }
    assert(input.take(i as int) =~= input);
    out
}

/// What came back from a probe's thread.
pub enum Received {
    /// The probe finished and said what it saw.
    Finished(Verdict),
    /// Nothing came back within the budget.
    TimedOut,
    /// The thread died; the panic message, if one was recorded.
    Died(Option<String>),
    /// The thread could not be started: why.
    NotStarted(String),
}

/// The message of a probe thread that died without leaving one.
pub open spec fn silent_death() -> Seq<char> {
    "the probe thread died without a message"@
}

/// `p` is the probe `case` turns into, given what came back from its thread.
/// A hang costs one line; a panic is reported instead of taking the run down.
pub open spec fn is_conclusion<R>(case: Case<R>, received: Received, p: Probe) -> bool {
    &&& p.name == case.name
    &&& p.dimension == case.dimension
    &&& match received {
        Received::Finished(v) => p.outcome == v.outcome && p.measures == v.measures,
        Received::TimedOut => {
            &&& p.outcome is Hangs
            &&& p.measures.ttfc_ms is None
            &&& p.measures.total_ms is None
            &&& p.measures.chunks is None
            &&& p.measures.bytes is None
            &&& p.measures.notes@.len() == 1
            &&& p.measures.notes@[0]@ == "nothing came back within "@ + decimal(case.budget_secs as nat)
                + "s"@
        },
        Received::Died(message) => {
            &&& p.outcome matches Outcome::Panics { detail } && detail@ == match message {
                Some(m) => m@,
                None => silent_death(),
            }
            &&& is_empty_measures(p.measures)
        },
        Received::NotStarted(e) => {
            &&& p.outcome matches Outcome::Rejects { detail } && detail@
                == "could not start the probe thread: "@ + e@
            &&& is_empty_measures(p.measures)
        },
    }
}

/// The probe a case turns into, given what came back from its thread.
pub fn conclude<R>(case: &Case<R>, received: Received) -> (p: Probe)
    ensures
        is_conclusion(*case, received, p),
{
    let (outcome, measures) = match received {
        Received::Finished(verdict) => (verdict.outcome, verdict.measures),
        Received::TimedOut => {
            let mut measures = Measures::default();
            let mut note = owned("nothing came back within ");
            push_decimal(&mut note, case.budget_secs as u128);
            push_str(&mut note, "s");
            measures.note(note);
            (Outcome::Hangs, measures)
        },
        Received::Died(message) => {
            let detail = match message {
                Some(m) => m,
                None => owned("the probe thread died without a message"),
            };
            (Outcome::Panics { detail }, Measures::default())
        },
        Received::NotStarted(e) => {
            let mut detail = owned("could not start the probe thread: ");
            push_str(&mut detail, e.as_str());
            (Outcome::rejects(detail), Measures::default())
        },
    };
    Probe { name: case.name, dimension: case.dimension, outcome, measures }
}

/// Without a filter, a run starts every case of the corpus, in order.
pub proof fn law_no_filter_selects_all<R>(corpus: Seq<Case<R>>)
    ensures
        selected(corpus, None) == corpus,
    decreases corpus.len(),
{
    if corpus.len() > 0 {
        law_no_filter_selects_all(corpus.drop_last());
        assert(corpus.drop_last().push(corpus.last()) =~= corpus);
    }
}

/// A filter only ever drops cases: each case a run starts is one of the
/// corpus, and matches the filter by name or dimension.
pub proof fn law_selected_match<R>(corpus: Seq<Case<R>>, f: Seq<char>)
    ensures
        selected(corpus, Some(f)).len() <= corpus.len(),
        forall|k: int|
            0 <= k < selected(corpus, Some(f)).len() ==> corpus.contains(#[trigger] selected(corpus, Some(f))[k]),
        forall|k: int|
            0 <= k < selected(corpus, Some(f)).len() ==> selects(
                Some(f),
                (#[trigger] selected(corpus, Some(f))[k]).name@,
                selected(corpus, Some(f))[k].dimension@,
            ),
    decreases corpus.len(),
{
    if corpus.len() > 0 {
        let pre = corpus.drop_last();
        law_selected_match(pre, f);
        let r = selected(corpus, Some(f));
        let rp = selected(pre, Some(f));
        assert forall|k: int| 0 <= k < r.len() implies corpus.contains(#[trigger] r[k]) by {
            if k < rp.len() {
                assert(r[k] == rp[k]);
                let m = choose|m: int| 0 <= m < pre.len() && pre[m] == rp[k];
                assert(corpus[m] == pre[m]);
            } else {
                assert(r[k] == corpus[corpus.len() - 1]);
            }
        }
        assert forall|k: int| 0 <= k < r.len() implies selects(Some(f), (#[trigger] r[k]).name@, r[k].dimension@) by {
            if k < rp.len() {
                assert(r[k] == rp[k]);
            }
        }
    }
}

/// `p` is what `case` turned into, given something `probe` may answer for it.
pub open spec fn probed<R, P: Fn(&Case<R>) -> Received>(probe: P, case: Case<R>, p: Probe) -> bool {
    exists|received: Received| probe.ensures((&case,), received) && is_conclusion(case, received, p)
}

/// Runs the cases of `corpus` the filter keeps, in corpus order, one at a
/// time: `probe` starts a case and says what came back, and each answer
/// becomes that case's line of the run.
pub fn run<R, P: Fn(&Case<R>) -> Received>(
    backend: &'static str,
    corpus: Vec<Case<R>>,
    filter: Option<&str>,
    probe: P,
) -> (r: Run)
    requires
        forall|c: &Case<R>| probe.requires((c,)),
    ensures
        r.backend == backend,
        r.probes@.len() == selected(corpus@, filter_view(filter)).len(),
        forall|i: int|
            0 <= i < r.probes@.len() ==> probed(
                probe,
                selected(corpus@, filter_view(filter))[i],
                #[trigger] r.probes@[i],
            ),
{
    let cases = select(corpus, filter);
    let mut probes: Vec<Probe> = Vec::new();
    let mut i: usize = 0;
    while i < cases.len()
        invariant
            i <= cases.len(),
            probes@.len() == i,
            forall|c: &Case<R>| probe.requires((c,)),
            forall|k: int| 0 <= k < i ==> probed(probe, cases@[k], #[trigger] probes@[k]),
        decreases cases.len() - i,
    {
        let received = probe(&cases[i]);
        let p = conclude(&cases[i], received);
        assert(probed(probe, cases@[i as int], p));
        probes.push(p);
        i += 1;
    }
    Run { backend, probes }
}

/// With a filter, a case is selected exactly when its name or its dimension
/// contains the filter: the selection is those cases, all of them, in
/// corpus order.
pub proof fn law_selected_by_name_or_dimension<R>(corpus: Seq<Case<R>>, f: Seq<char>)
    ensures
        selected(corpus, Some(f)) == corpus.filter(
            |c: Case<R>| contains(c.name@, f) || contains(c.dimension@, f),
        ),
    decreases corpus.len(),
{
    reveal(Seq::filter);
    if corpus.len() > 0 {
        law_selected_by_name_or_dimension(corpus.drop_last(), f);
    }
}

} // verus!
