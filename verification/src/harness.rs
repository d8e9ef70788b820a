//! Turns what a guest test file says about itself, and what its worker sent
//! back, into a [`FileReport`].

use vstd::prelude::*;
use vstd::string::*;

use crate::report::{count_passed, lemma_none_passed, truncate, truncated, FileReport, TestOutcome};
use crate::text::{decimal, index_of, lemma_index_of, lines, lines_of, owned, push_decimal, push_str, string_of};

verus! {

broadcast use vstd::string::group_string_axioms;

/// What the guest reported for one test.
pub struct GuestResult {
    pub name: String,
    pub ok: bool,
    pub error: String,
}

/// What a test declaration starts with.
pub open spec fn test_prefix() -> Seq<char> {
    seq!['t', 'e', 's', 't', '(']
}

/// The name a line declares: `test(` at column 0, a quote, and the text up
/// to the same quote.
pub open spec fn declared_name(line: Seq<char>) -> Option<Seq<char>> {
    if line.len() > 5 && line.take(5) == test_prefix() && (line[5] == '\'' || line[5] == '"') {
        let rest = line.skip(6);
        let end = index_of(rest, line[5]);
        if end < rest.len() {
            Some(rest.take(end as int))
        } else {
            None
        }
    } else {
        None
    }
}

/// The names declared by `ls`, in order.
pub open spec fn declared_in(ls: Seq<Seq<char>>) -> Seq<Seq<char>>
    decreases ls.len(),
{
    if ls.len() == 0 {
        Seq::empty()
    } else {
        match declared_name(ls[0]) {
            Some(name) => seq![name] + declared_in(ls.drop_first()),
            None => declared_in(ls.drop_first()),
        }
    }
}

/// The name `line` declares, as the scan of the source finds it.
fn declared_name_exec(line: &Vec<char>) -> (r: Option<String>)
    ensures
        match r {
            Some(n) => declared_name(line@) == Some(n@),
            None => declared_name(line@) is None,
        },
{
    let prefix = ['t', 'e', 's', 't', '('];
    if line.len() <= 5 {
        return None;
    }
    let mut k: usize = 0;
    while k < 5
        invariant
            k <= 5,
            line.len() > 5,
            prefix@ == test_prefix(),
            forall|m: int| 0 <= m < k ==> line@[m] == test_prefix()[m],
        decreases 5 - k,
    {
        if line[k] != prefix[k] {
            assert(line@.take(5)[k as int] != test_prefix()[k as int]);
            return None;
        }
        k += 1;
    }
    assert(line@.take(5) =~= test_prefix());
    let quote = line[5];
    if quote != '\'' && quote != '"' {
        return None;
    }
    let ghost rest = line@.skip(6);
    let mut e: usize = 6;
    while e < line.len() && line[e] != quote
        invariant
            6 <= e <= line.len(),
            rest == line@.skip(6),
            forall|m: int| 6 <= m < e ==> line@[m] != quote,
        decreases line.len() - e,
    {
        e += 1;
    }
    proof {
        lemma_index_of(rest, quote, e - 6);
    }
    if e == line.len() {
        return None;
    }
    let mut name: Vec<char> = Vec::new();
    let mut m: usize = 6;
    while m < e
        invariant
            6 <= m <= e,
            e < line.len(),
            name@ == line@.subrange(6, m as int),
        decreases e - m,
    {
        name.push(line[m]);
        m += 1;
        assert(name@ =~= line@.subrange(6, m as int));
    }
    assert(name@ =~= rest.take(e - 6));
    Some(string_of(&name))
}

/// The names of the tests `source` declares, one per `test('name', ...)` at
/// column 0, in order. Every backend scores against these, so one that
/// cannot even parse a file still reports 0/N rather than 0/0.
pub fn declared_tests(source: &str) -> (r: Vec<String>)
    ensures
        r@.len() == declared_in(lines(source@)).len(),
        forall|i: int| 0 <= i < r@.len() ==> #[trigger] r@[i]@ == declared_in(lines(source@))[i],
{
    let ls = lines_of(source);
    let ghost all = lines(source@);
    let mut out: Vec<String> = Vec::new();
    let mut i: usize = 0;
    proof {
        assert(all.skip(0) =~= all);
        assert(out@.map_values(|s: String| s@) + declared_in(all) =~= declared_in(all));
    }
    while i < ls.len()
        invariant
            i <= ls.len(),
            ls@.len() == all.len(),
            forall|k: int| 0 <= k < ls@.len() ==> #[trigger] ls@[k]@ == all[k],
            out@.map_values(|s: String| s@) + declared_in(all.skip(i as int)) == declared_in(all),
        decreases ls.len() - i,
    {
        let ghost before = out@;
        proof {
            assert(all.skip(i as int).drop_first() =~= all.skip(i + 1));
            assert(all.skip(i as int)[0] == ls@[i as int]@);
        }
        match declared_name_exec(&ls[i]) {
            Some(name) => {
                out.push(name);
                proof {
                    assert(out@.map_values(|s: String| s@) =~= before.map_values(|s: String| s@).push(
                        declared_name(ls@[i as int]@).unwrap(),
                    ));
                }
            },
            None => {},
        }
        i += 1;
        proof {
            assert(out@.map_values(|s: String| s@) + declared_in(all.skip(i as int))
                =~= before.map_values(|s: String| s@) + declared_in(all.skip(i - 1)));
        }
    }
    proof {
        assert(all.skip(i as int) =~= Seq::<Seq<char>>::empty());
        assert(out@.map_values(|s: String| s@) =~= declared_in(all));
        assert forall|k: int| 0 <= k < out@.len() implies #[trigger] out@[k]@ == declared_in(all)[k] by {
            assert(out@.map_values(|s: String| s@)[k] == out@[k]@);
        }
    }
    out
}

/// The last result the guest reported under `name`, if any: a later report
/// of the same name replaces an earlier one.
pub open spec fn last_reported(reported: Seq<GuestResult>, name: Seq<char>) -> Option<GuestResult>
    decreases reported.len(),
{
    if reported.len() == 0 {
        None
    } else if reported.last().name@ == name {
        Some(reported.last())
    } else {
        last_reported(reported.drop_last(), name)
    }
}

/// The results whose names the source scan did not find, in report order.
pub open spec fn undeclared(reported: Seq<GuestResult>, declared: Seq<Seq<char>>) -> Seq<GuestResult>
    decreases reported.len(),
{
    if reported.len() == 0 {
        Seq::empty()
    } else if declared.contains(reported.last().name@) {
        undeclared(reported.drop_last(), declared)
    } else {
        undeclared(reported.drop_last(), declared).push(reported.last())
    }
}

/// The text of each name.
pub open spec fn name_texts(names: Seq<String>) -> Seq<Seq<char>> {
    names.map_values(|s: String| s@)
}

/// The outcome of a declared test: what the guest last said about it, or a
/// failure if it said nothing.
pub open spec fn declared_outcome(t: TestOutcome, name: Seq<char>, reported: Seq<GuestResult>) -> bool {
    &&& t.name@ == name
    &&& match last_reported(reported, name) {
        Some(g) => t.passed == g.ok && t.error@ == g.error@,
        None => !t.passed && t.error@ == "not reported by the guest"@,
    }
}

/// The outcome of a test the guest reported but the source scan missed.
pub open spec fn reported_outcome(t: TestOutcome, g: GuestResult) -> bool {
    t.name@ == g.name@ && t.passed == g.ok && t.error@ == g.error@
}

/// The last result under `name`, searched from the end.
fn find_last<'a>(reported: &'a Vec<GuestResult>, name: &String) -> (r: Option<&'a GuestResult>)
    ensures
        match r {
            Some(g) => last_reported(reported@, name@) == Some(*g),
            None => last_reported(reported@, name@) is None,
        },
{
    let mut i: usize = reported.len();
    assert(reported@.subrange(0, i as int) =~= reported@);
    while i > 0
        invariant
            i <= reported.len(),
            last_reported(reported@, name@) == last_reported(reported@.subrange(0, i as int), name@),
        decreases i,
    {
        assert(reported@.subrange(0, i as int).drop_last() =~= reported@.subrange(0, i - 1));
        if reported[i - 1].name == *name {
            return Some(&reported[i - 1]);
        }
        i -= 1;
    }
    None
}

/// Whether `name` is among `names`.
fn is_declared(names: &Vec<String>, name: &String) -> (r: bool)
    ensures
        r == name_texts(names@).contains(name@),
{
    let mut i: usize = 0;
    while i < names.len()
        invariant
            i <= names.len(),
            forall|k: int| 0 <= k < i ==> names@[k]@ != name@,
        decreases names.len() - i,
    {
        if names[i] == *name {
            assert(name_texts(names@)[i as int] == name@);
            return true;
        }
        i += 1;
    }
    proof {
        if name_texts(names@).contains(name@) {
            let k = choose|k: int| 0 <= k < names@.len() && name_texts(names@)[k] == name@;
        }
    }
    false
}

/// Outcomes for every declared name, in declaration order, then for every
/// reported name the scan missed, in report order. A declared name with no
/// result failed before it could run; a name the scan missed still counts,
/// or the total lies.
pub fn merge(declared: Vec<String>, reported: Vec<GuestResult>) -> (r: Vec<TestOutcome>)
    ensures
        r@.len() == declared@.len() + undeclared(reported@, name_texts(declared@)).len(),
        forall|i: int|
            0 <= i < declared@.len() ==> declared_outcome(
                #[trigger] r@[i],
                declared@[i]@,
                reported@,
            ),
        forall|j: int|
            0 <= j < undeclared(reported@, name_texts(declared@)).len() ==> reported_outcome(
                #[trigger] r@[declared@.len() + j],
                undeclared(reported@, name_texts(declared@))[j],
            ),
{
    let mut out: Vec<TestOutcome> = Vec::new();
    let mut i: usize = 0;
    while i < declared.len()
        invariant
            i <= declared.len(),
            out@.len() == i,
            forall|k: int| 0 <= k < i ==> declared_outcome(#[trigger] out@[k], declared@[k]@, reported@),
        decreases declared.len() - i,
    {
        let name = &declared[i];
        let t = match find_last(&reported, name) {
            Some(g) => TestOutcome { name: name.clone(), passed: g.ok, error: g.error.clone() },
            None => TestOutcome {
                name: name.clone(),
                passed: false,
                error: owned("not reported by the guest"),
            },
        };
        out.push(t);
        i += 1;
    }
    let ghost names = name_texts(declared@);
    let mut j: usize = 0;
    while j < reported.len()
        invariant
            j <= reported.len(),
            names == name_texts(declared@),
            out@.len() == declared@.len() + undeclared(reported@.subrange(0, j as int), names).len(),
            forall|k: int| 0 <= k < declared@.len() ==> declared_outcome(#[trigger] out@[k], declared@[k]@, reported@),
            forall|k: int|
                0 <= k < undeclared(reported@.subrange(0, j as int), names).len() ==> reported_outcome(
                    #[trigger] out@[declared@.len() + k],
                    undeclared(reported@.subrange(0, j as int), names)[k],
                ),
        decreases reported.len() - j,
    {
        assert(reported@.subrange(0, j + 1).drop_last() =~= reported@.subrange(0, j as int));
        let g = &reported[j];
        if !is_declared(&declared, &g.name) {
            out.push(TestOutcome { name: g.name.clone(), passed: g.ok, error: g.error.clone() });
        }
        j += 1;
    }
    assert(reported@.subrange(0, j as int) =~= reported@);
    out
}

/// Why a worker gave no usable answer for a file; each carries the runtime's
/// own words where there are any.
pub enum RunFailure {
    /// The worker did not start.
    InitFailed(String),
    /// `exec` returned an error.
    ExecFailed(String),
    /// The worker sent no response.
    NoResponse,
    /// Reading the body failed.
    BodyFailed(String),
    /// The body was empty.
    EmptyBody,
    /// The body was not UTF-8.
    NotUtf8(String),
}

/// How a failure reads in the report.
pub open spec fn failure_text(f: RunFailure) -> Seq<char> {
    match f {
        RunFailure::InitFailed(e) => "worker init failed: "@ + e@,
        RunFailure::ExecFailed(e) => "exec failed: "@ + e@,
        RunFailure::NoResponse => "worker sent no response"@,
        RunFailure::BodyFailed(e) => "body stream failed: "@ + e@,
        RunFailure::EmptyBody => "worker sent an empty body"@,
        RunFailure::NotUtf8(e) => "body is not utf-8: "@ + e@,
    }
}

/// How a failure reads in the report.
pub fn failure_reason(f: &RunFailure) -> (r: String)
    ensures
        r@ == failure_text(*f),
{
    let (head, tail) = match f {
        RunFailure::InitFailed(e) => ("worker init failed: ", e.as_str()),
        RunFailure::ExecFailed(e) => ("exec failed: ", e.as_str()),
        RunFailure::NoResponse => ("worker sent no response", ""),
        RunFailure::BodyFailed(e) => ("body stream failed: ", e.as_str()),
        RunFailure::EmptyBody => ("worker sent an empty body", ""),
        RunFailure::NotUtf8(e) => ("body is not utf-8: ", e.as_str()),
    };
    let mut r = owned(head);
    push_str(&mut r, tail);
    proof {
        reveal_strlit("");
    }
    assert(r@ =~= failure_text(*f));
    r
}

/// The report of a file that could not even be read: it has no denominator,
/// and the read error says why.
pub fn read_failed(area: &str, display: &str, error: &str) -> (r: FileReport)
    ensures
        r.area@ == area@,
        r.path@ == display@,
        r.error matches Some(e) && e@ == "read failed: "@ + error@,
        r.tests@.len() == 0,
{
    let mut reason = owned("read failed: ");
    push_str(&mut reason, error);
    FileReport::unreadable(area, display, reason)
}

/// What running a file produced, once the host has read the worker's answer.
pub enum Evaluation {
    /// The worker could not run the file, or its answer was unusable.
    Failed(RunFailure),
    /// Nothing came back within the deadline, in seconds.
    TimedOut(u64),
    /// The guest's report did not parse: the parser's complaint, and the body.
    Unparseable { error: String, body: String },
    /// The guest's own results.
    Reported(Vec<GuestResult>),
}

/// Why a file that never reached its report failed.
pub open spec fn abort_reason(evaluation: Evaluation) -> Seq<char> {
    match evaluation {
        Evaluation::Failed(f) => failure_text(f),
        Evaluation::TimedOut(secs) => "no response after "@ + decimal(secs as nat) + "s"@,
        Evaluation::Unparseable { error, body } => "unparseable report ("@ + error@ + "): "@
            + truncated(body@, 200),
        Evaluation::Reported(_) => Seq::empty(),
    }
}

/// `r` is the report of the file `display`, filed under `area`, whose source
/// is `source`, given what running it produced. Guest failures are data; only
/// a file that never ran carries an error, and then every declared test fails
/// with it.
pub open spec fn is_file_report(
    area: Seq<char>,
    display: Seq<char>,
    source: Seq<char>,
    evaluation: Evaluation,
    r: FileReport,
) -> bool {
    let names = declared_in(lines(source));
    &&& r.area@ == area
    &&& r.path@ == display
    &&& match evaluation {
        Evaluation::Reported(results) => {
            &&& r.error is None
            &&& r.tests@.len() == names.len() + undeclared(results@, names).len()
            &&& forall|i: int|
                0 <= i < names.len() ==> declared_outcome(#[trigger] r.tests@[i], names[i], results@)
            &&& forall|j: int|
                0 <= j < undeclared(results@, names).len() ==> reported_outcome(
                    #[trigger] r.tests@[names.len() + j],
                    undeclared(results@, names)[j],
                )
        },
        _ => {
            let reason = abort_reason(evaluation);
            &&& r.error matches Some(e) && e@ == reason
            &&& r.tests@.len() == names.len()
            &&& forall|i: int|
                0 <= i < r.tests@.len() ==> {
                    &&& #[trigger] r.tests@[i].name@ == names[i]
                    &&& !r.tests@[i].passed
                    &&& r.tests@[i].error@ == reason
                }
        },
    }
}

/// The report of a file whose source is `source`, given what running it
/// produced.
pub fn file_report(area: &str, display: &str, source: &str, evaluation: Evaluation) -> (r: FileReport)
    ensures
        is_file_report(area@, display@, source@, evaluation, r),
{
    let declared = declared_tests(source);
    let ghost names = declared_in(lines(source@));
    assert(name_texts(declared@) =~= names);
    match evaluation {
        Evaluation::Reported(results) => {
            let tests = merge(declared, results);
            FileReport { area: owned(area), path: owned(display), error: None, tests }
        },
        Evaluation::Failed(f) => {
            let reason = failure_reason(&f);
            FileReport::aborted(area, display, declared, reason)
        },
        Evaluation::TimedOut(secs) => {
            let mut reason = owned("no response after ");
            push_decimal(&mut reason, secs as u128);
            push_str(&mut reason, "s");
            FileReport::aborted(area, display, declared, reason)
        },
        Evaluation::Unparseable { error, body } => {
            let mut reason = owned("unparseable report (");
            push_str(&mut reason, error.as_str());
            push_str(&mut reason, "): ");
            let cut = truncate(body.as_str(), 200);
            push_str(&mut reason, cut.as_str());
            FileReport::aborted(area, display, declared, reason)
        },
    }
}

/// The denominator comes from the source, not from the run: whatever
/// happened, each test the source declares is counted, under its name and in
/// order, and a file that never reached its report scores 0 of exactly those.
pub proof fn law_denominator_from_source(
    area: Seq<char>,
    display: Seq<char>,
    source: Seq<char>,
    evaluation: Evaluation,
    r: FileReport,
)
    requires
        is_file_report(area, display, source, evaluation, r),
    ensures
        r.tests@.len() >= declared_in(lines(source)).len(),
        forall|i: int|
            0 <= i < declared_in(lines(source)).len() ==> #[trigger] r.tests@[i].name@ == declared_in(
                lines(source),
            )[i],
        !(evaluation is Reported) ==> r.tests@.len() == declared_in(lines(source)).len()
            && count_passed(r.tests@) == 0,
{
    if !(evaluation is Reported) {
        assert forall|i: int| 0 <= i < r.tests@.len() implies !(#[trigger] r.tests@[i]).passed by {
            assert(r.tests@[i].name@ == declared_in(lines(source))[i]);
        }
        lemma_none_passed(r.tests@);
    }
}

/// Every reported result whose name the source scan did not declare is kept,
/// passed or not, in report order: the strays are exactly the reported
/// results with undeclared names, so a file's total is its declared count
/// plus their number.
pub proof fn law_strays_are_every_undeclared_result(reported: Seq<GuestResult>, declared: Seq<Seq<char>>)
    ensures
        undeclared(reported, declared) == reported.filter(|g: GuestResult| !declared.contains(g.name@)),
    decreases reported.len(),
{
    reveal(Seq::filter);
    if reported.len() > 0 {
        law_strays_are_every_undeclared_result(reported.drop_last(), declared);
    }
}

/// A line `test(` at column 0, a quote, a body without that quote, and the
/// same quote again declares exactly the body, even when the body holds the
/// other kind of quote.
pub proof fn law_declared_name_up_to_same_quote(q: char, body: Seq<char>, rest: Seq<char>)
    requires
        q == '\'' || q == '"',
        !body.contains(q),
    ensures
        declared_name(seq!['t', 'e', 's', 't', '(', q] + body + seq![q] + rest) == Some(body),
{
    let line = seq!['t', 'e', 's', 't', '(', q] + body + seq![q] + rest;
    assert(line.take(5) =~= test_prefix());
    assert(line[5] == q);
    let after = line.skip(6);
    assert(after =~= body + seq![q] + rest);
    assert forall|k: int| 0 <= k < body.len() implies after[k] != q by {
        assert(after[k] == body[k]);
    }
    lemma_index_of(after, q, body.len() as int);
    assert(after.take(body.len() as int) =~= body);
}

/// A line that does not start with `test(` at column 0 declares nothing.
pub proof fn law_declared_name_needs_column_zero(line: Seq<char>)
    requires
        line.len() < 6 || line.take(5) != seq!['t', 'e', 's', 't', '('],
    ensures
        declared_name(line) is None,
{
    if line.len() >= 6 {
        assert(test_prefix() =~= seq!['t', 'e', 's', 't', '(']);
    }
}

} // verus!
