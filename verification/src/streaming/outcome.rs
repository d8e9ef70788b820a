//! What a streaming probe can say, and how a run of them is rendered.
//!
//! A probe never asserts that a backend streams. It reports what the backend
//! did, because "this one buffers" is the measurement, not a failure.

use vstd::prelude::*;
use vstd::string::*;
use vstd::utf8::*;

use crate::order::{lemma_ranks_unique, ranked_before, ranks};
use crate::text::{
    decimal, padded, push_decimal, push_padded, push_repeated, push_str, repeated, same_text,
    spaces,
};

verus! {

broadcast use vstd::string::group_string_axioms;

/// The things a backend can do with a streaming body.
#[derive(Debug, Clone, PartialEq, Eq)]
pub enum Outcome {
    /// Bytes crossed the boundary while the other side was still producing.
    Streams,
    /// Correct bytes, but only after the whole body was collected somewhere.
    Buffers,
    /// Correct, and streaming was not what this probe asked about.
    Correct,
    /// It answered, with the wrong bytes.
    Wrong { detail: String },
    /// It refused: an error, a missing response, an unsupported shape.
    Rejects { detail: String },
    /// Nothing came back inside the probe deadline.
    Hangs,
    /// The runtime panicked.
    Panics { detail: String },
    /// The probe does not apply to this backend.
    Skipped { detail: String },
}

/// The word an outcome is reported by.
pub open spec fn label_of(o: Outcome) -> Seq<char> {
    match o {
        Outcome::Streams => "streams"@,
        Outcome::Buffers => "buffers"@,
        Outcome::Correct => "ok"@,
        Outcome::Wrong { .. } => "wrong"@,
        Outcome::Rejects { .. } => "rejects"@,
        Outcome::Hangs => "hangs"@,
        Outcome::Panics { .. } => "panics"@,
        Outcome::Skipped { .. } => "skipped"@,
    }
}

/// The explanation an outcome carries, if it carries one.
pub open spec fn detail_of(o: Outcome) -> Option<Seq<char>> {
    match o {
        Outcome::Wrong { detail } => Some(detail@),
        Outcome::Rejects { detail } => Some(detail@),
        Outcome::Panics { detail } => Some(detail@),
        Outcome::Skipped { detail } => Some(detail@),
        _ => None,
    }
}

impl Outcome {
    /// The word this outcome is reported by.
    pub fn label(&self) -> (r: &'static str)
        ensures
            r@ == label_of(*self),
    {
        match self {
            Outcome::Streams => "streams",
            Outcome::Buffers => "buffers",
            Outcome::Correct => "ok",
            Outcome::Wrong { .. } => "wrong",
            Outcome::Rejects { .. } => "rejects",
            Outcome::Hangs => "hangs",
            Outcome::Panics { .. } => "panics",
            Outcome::Skipped { .. } => "skipped",
        }
    }

    /// The explanation this outcome carries, if any.
    pub fn detail(&self) -> (r: Option<&str>)
        ensures
            match r {
                Some(d) => detail_of(*self) == Some(d@),
                None => detail_of(*self) is None,
            },
    {
        match self {
            Outcome::Wrong { detail } => Some(detail.as_str()),
            Outcome::Rejects { detail } => Some(detail.as_str()),
            Outcome::Panics { detail } => Some(detail.as_str()),
            Outcome::Skipped { detail } => Some(detail.as_str()),
            _ => None,
        }
    }

    /// It answered, with the wrong bytes: `detail` says how.
    pub fn wrong(detail: String) -> (r: Self)
        ensures
            r matches Outcome::Wrong { detail: d } && d@ == detail@,
    {
        Outcome::Wrong { detail }
    }

    /// It refused: `detail` says how.
    pub fn rejects(detail: String) -> (r: Self)
        ensures
            r matches Outcome::Rejects { detail: d } && d@ == detail@,
    {
        Outcome::Rejects { detail }
    }

    /// The probe does not apply: `detail` says why.
    pub fn skipped(detail: String) -> (r: Self)
        ensures
            r matches Outcome::Skipped { detail: d } && d@ == detail@,
    {
        Outcome::Skipped { detail }
    }
}

/// The numbers behind one probe. All times are milliseconds from `exec` start.
#[derive(Debug, Clone)]
pub struct Measures {
    /// Time the first byte of the body reached the host.
    pub ttfc_ms: Option<u64>,
    /// Time the body ended.
    pub total_ms: Option<u64>,
    /// Chunks the host received, before any reassembly.
    pub chunks: Option<usize>,
    /// Bytes the host received.
    pub bytes: Option<usize>,
    /// Free-form facts worth keeping next to the verdict.
    pub notes: Vec<String>,
}

impl Default for Measures {
    /// No numbers, and no notes.
    fn default() -> (r: Self)
        ensures
            r.ttfc_ms is None,
            r.total_ms is None,
            r.chunks is None,
            r.bytes is None,
            r.notes@.len() == 0,
    {
        Measures { ttfc_ms: None, total_ms: None, chunks: None, bytes: None, notes: Vec::new() }
    }
}

impl Measures {
    /// Keeps one more fact, after the others.
    pub fn note(&mut self, note: String)
        ensures
            final(self).notes@ == old(self).notes@.push(note),
            final(self).ttfc_ms == old(self).ttfc_ms,
            final(self).total_ms == old(self).total_ms,
            final(self).chunks == old(self).chunks,
            final(self).bytes == old(self).bytes,
    {
        self.notes.push(note);
    }
}

/// One probe, its verdict and its numbers.
#[derive(Debug, Clone)]
pub struct Probe {
    pub name: &'static str,
    pub dimension: &'static str,
    pub outcome: Outcome,
    pub measures: Measures,
}

/// Everything one backend did, in the order the probes ran.
#[derive(Debug)]
pub struct Run {
    pub backend: &'static str,
    pub probes: Vec<Probe>,
}


/// How many times `x` occurs in `labels`.
pub open spec fn occurrences(labels: Seq<Seq<char>>, x: Seq<char>) -> nat
    decreases labels.len(),
{
    if labels.len() == 0 {
        0
    } else {
        occurrences(labels.drop_last(), x) + if labels.last() == x {
            1nat
        } else {
            0nat
        }
    }
}

/// Each label of `labels` once, in the order it first appears.
pub open spec fn first_seen(labels: Seq<Seq<char>>) -> Seq<Seq<char>>
    decreases labels.len(),
{
    if labels.len() == 0 {
        Seq::empty()
    } else if labels.drop_last().contains(labels.last()) {
        first_seen(labels.drop_last())
    } else {
        first_seen(labels.drop_last()).push(labels.last())
    }
}

/// `label count`.
pub open spec fn tally_item(label: Seq<char>, count: nat) -> Seq<char> {
    label + " "@ + decimal(count)
}

/// `items`, separated by `, `.
pub open spec fn joined(items: Seq<Seq<char>>) -> Seq<char>
    decreases items.len(),
{
    if items.len() == 0 {
        Seq::empty()
    } else if items.len() == 1 {
        items[0]
    } else {
        joined(items.drop_last()) + ", "@ + items.last()
    }
}

/// How many times each label of `labels` occurs, in the order the labels
/// first appear.
pub open spec fn seen_counts(labels: Seq<Seq<char>>) -> Seq<nat> {
    first_seen(labels).map_values(|x: Seq<char>| occurrences(labels, x))
}

/// The order the tally lists the labels in, as positions among the labels
/// first seen: the most frequent first, labels as frequent as each other in
/// the order they first appear.
pub open spec fn tally_order(labels: Seq<Seq<char>>) -> Seq<int> {
    choose|order: Seq<int>| ranks(seen_counts(labels), order)
}

/// The tally of `labels`: each label once with how many times it appears,
/// the most frequent first, ties in the order the labels first appear.
pub open spec fn tally_text(labels: Seq<Seq<char>>) -> Seq<char> {
    joined(
        tally_order(labels).map_values(
            |k: int| tally_item(first_seen(labels)[k], seen_counts(labels)[k]),
        ),
    )
}

/// The label of each probe's outcome, in run order.
pub open spec fn labels_of(probes: Seq<Probe>) -> Seq<Seq<char>> {
    probes.map_values(|p: Probe| label_of(p.outcome))
}

/// A label is first seen exactly when it occurs at all.
pub proof fn lemma_first_seen_contains(labels: Seq<Seq<char>>, x: Seq<char>)
    ensures
        first_seen(labels).contains(x) <==> labels.contains(x),
    decreases labels.len(),
{
    if labels.len() > 0 {
        let pre = labels.drop_last();
        lemma_first_seen_contains(pre, x);
        lemma_first_seen_contains(pre, labels.last());
        if labels.contains(x) {
            let k = choose|k: int| 0 <= k < labels.len() && labels[k] == x;
            if k < pre.len() {
                assert(pre[k] == x);
            }
        }
        if pre.contains(x) {
            let k = choose|k: int| 0 <= k < pre.len() && pre[k] == x;
            assert(labels[k] == x);
        }
        if x == labels.last() {
            assert(labels[labels.len() - 1] == x);
            if !pre.contains(x) {
                assert(first_seen(labels)[first_seen(labels).len() - 1] == x);
            }
        }
        if first_seen(labels).contains(x) && !first_seen(pre).contains(x) {
            let k = choose|k: int| 0 <= k < first_seen(labels).len() && first_seen(labels)[k] == x;
            if k < first_seen(pre).len() {
                assert(first_seen(pre)[k] == x);
            }
        }
        if first_seen(pre).contains(x) {
            let k = choose|k: int| 0 <= k < first_seen(pre).len() && first_seen(pre)[k] == x;
            assert(first_seen(labels)[k] == x);
        }
    }
}

/// No label is first seen twice.
pub proof fn lemma_first_seen_distinct(labels: Seq<Seq<char>>)
    ensures
        forall|i: int, j: int|
            0 <= i < j < first_seen(labels).len() ==> first_seen(labels)[i] != first_seen(labels)[j],
    decreases labels.len(),
{
    if labels.len() > 0 {
        let pre = labels.drop_last();
        lemma_first_seen_distinct(pre);
        lemma_first_seen_contains(pre, labels.last());
        if !pre.contains(labels.last()) {
            assert forall|i: int, j: int|
                0 <= i < j < first_seen(labels).len() implies first_seen(labels)[i]
                != first_seen(labels)[j] by {
                if j == first_seen(labels).len() - 1 {
                    if first_seen(labels)[i] == first_seen(labels)[j] {
                        assert(first_seen(pre)[i] == labels.last());
                    }
                }
            }
        }
    }
}

/// The width of the name column: the longest probe name in bytes.
pub open spec fn name_width(probes: Seq<Probe>) -> nat
    decreases probes.len(),
{
    if probes.len() == 0 {
        0
    } else {
        let w = name_width(probes.drop_last());
        let l = encode_utf8(probes.last().name@).len();
        if l > w {
            l
        } else {
            w
        }
    }
}

/// The dimension the probe before `i` belonged to; nothing before the first.
pub open spec fn previous_dimension(probes: Seq<Probe>, i: int) -> Seq<char> {
    if i <= 0 {
        Seq::empty()
    } else {
        probes[i - 1].dimension@
    }
}

/// The timing column: both times, or the total alone, or nothing.
pub open spec fn timing_text(m: Measures) -> Seq<char> {
    match (m.ttfc_ms, m.total_ms) {
        (Some(ttfc), Some(total)) => "  ttfc "@ + decimal(ttfc as nat) + "ms / total "@ + decimal(
            total as nat,
        ) + "ms"@,
        (_, Some(total)) => "  total "@ + decimal(total as nat) + "ms"@,
        _ => Seq::empty(),
    }
}

/// A count column: `  {n}{unit}`, or nothing.
pub open spec fn count_text(n: Option<usize>, unit: Seq<char>) -> Seq<char> {
    match n {
        Some(n) => "  "@ + decimal(n as nat) + unit,
        None => Seq::empty(),
    }
}

/// The detail line of an outcome, or nothing.
pub open spec fn detail_text(o: Outcome, width: nat) -> Seq<char> {
    match detail_of(o) {
        Some(d) => "  "@ + spaces(width) + "  -> "@ + d + "\n"@,
        None => Seq::empty(),
    }
}

/// One line per note, in order.
pub open spec fn note_lines(notes: Seq<String>, width: nat) -> Seq<char>
    decreases notes.len(),
{
    if notes.len() == 0 {
        Seq::empty()
    } else {
        note_lines(notes.drop_last(), width) + "  "@ + spaces(width) + "     "@ + notes.last()@
            + "\n"@
    }
}

/// The lines of one probe, headed by its dimension when that changes.
pub open spec fn probe_text(p: Probe, width: nat, previous: Seq<char>) -> Seq<char> {
    (if p.dimension@ != previous {
        p.dimension@ + "\n"@
    } else {
        Seq::empty()
    }) + "  "@ + padded(p.name@, width) + "  "@ + padded(label_of(p.outcome), 8) + timing_text(
        p.measures,
    ) + count_text(p.measures.chunks, " chunks"@) + count_text(p.measures.bytes, " bytes"@)
        + "\n"@ + detail_text(p.outcome, width) + note_lines(p.measures.notes@, width)
}

/// The lines of the first `n` probes.
pub open spec fn probe_texts(probes: Seq<Probe>, n: int, width: nat) -> Seq<char>
    decreases n,
{
    if n <= 0 {
        Seq::empty()
    } else {
        probe_texts(probes, n - 1, width) + probe_text(
            probes[n - 1],
            width,
            previous_dimension(probes, n - 1),
        )
    }
}

/// The whole report of a run.
pub open spec fn run_text(r: Run) -> Seq<char> {
    let w = name_width(r.probes@);
    "streaming: "@ + r.backend@ + "\n\n"@ + probe_texts(r.probes@, r.probes@.len() as int, w)
        + "\n"@ + tally_text(labels_of(r.probes@)) + "\n"@
}

/// What `render` needs to stay inside machine integers.
pub open spec fn run_renderable(r: Run) -> bool {
    forall|k: int|
        0 <= k < r.probes@.len() ==> encode_utf8(#[trigger] r.probes@[k].name@).len()
            <= usize::MAX
}

fn push_count(out: &mut String, n: Option<usize>, unit: &str)
    ensures
        final(out)@ == old(out)@ + count_text(n, unit@),
{
    let ghost start = out@;
    if let Some(n) = n {
        push_str(out, "  ");
        push_decimal(out, n as u128);
        push_str(out, unit);
    }
    assert(out@ =~= start + count_text(n, unit@));
}

fn push_timing(out: &mut String, m: &Measures)
    ensures
        final(out)@ == old(out)@ + timing_text(*m),
{
    let ghost start = out@;
    match (m.ttfc_ms, m.total_ms) {
        (Some(ttfc), Some(total)) => {
            push_str(out, "  ttfc ");
            push_decimal(out, ttfc as u128);
            push_str(out, "ms / total ");
            push_decimal(out, total as u128);
            push_str(out, "ms");
        },
        (_, Some(total)) => {
            push_str(out, "  total ");
            push_decimal(out, total as u128);
            push_str(out, "ms");
        },
        _ => {},
    }
    assert(out@ =~= start + timing_text(*m));
}

fn push_detail(out: &mut String, o: &Outcome, width: usize)
    ensures
        final(out)@ == old(out)@ + detail_text(*o, width as nat),
{
    let ghost start = out@;
    if let Some(detail) = o.detail() {
        push_str(out, "  ");
        push_repeated(out, ' ', width);
        push_str(out, "  -> ");
        push_str(out, detail);
        push_str(out, "\n");
        assert(repeated(' ', width as nat) =~= spaces(width as nat));
    }
    assert(out@ =~= start + detail_text(*o, width as nat));
}

fn push_notes(out: &mut String, notes: &Vec<String>, width: usize)
    ensures
        final(out)@ == old(out)@ + note_lines(notes@, width as nat),
{
    let ghost start = out@;
    let mut i: usize = 0;
    while i < notes.len()
        invariant
            i <= notes.len(),
            out@ == start + note_lines(notes@.subrange(0, i as int), width as nat),
        decreases notes.len() - i,
    {
        let ghost prev = out@;
        assert(notes@.subrange(0, i + 1).drop_last() =~= notes@.subrange(0, i as int));
        push_str(out, "  ");
        push_repeated(out, ' ', width);
        push_str(out, "     ");
        push_str(out, notes[i].as_str());
        push_str(out, "\n");
        assert(repeated(' ', width as nat) =~= spaces(width as nat));
        i += 1;
        assert(out@ =~= start + note_lines(notes@.subrange(0, i as int), width as nat));
    }
    assert(notes@.subrange(0, i as int) =~= notes@);
}

fn push_probe(out: &mut String, p: &Probe, width: usize, previous: &str)
    ensures
        final(out)@ == old(out)@ + probe_text(*p, width as nat, previous@),
{
    let ghost start = out@;
    if !same_text(p.dimension, previous) {
        push_str(out, p.dimension);
        push_str(out, "\n");
    }
    let ghost head = out@;
    push_str(out, "  ");
    push_padded(out, p.name, width);
    push_str(out, "  ");
    push_padded(out, p.outcome.label(), 8);
    push_timing(out, &p.measures);
    push_count(out, p.measures.chunks, " chunks");
    push_count(out, p.measures.bytes, " bytes");
    push_str(out, "\n");
    push_detail(out, &p.outcome, width);
    push_notes(out, &p.measures.notes, width);
    assert(out@ =~= start + probe_text(*p, width as nat, previous@));
}

impl Run {
    /// One line per probe, grouped under its dimension, then one tally over
    /// all probes.
    pub fn render(&self) -> (r: String)
        requires
            run_renderable(*self),
        ensures
            r@ == run_text(*self),
    {
        let mut width: usize = 0;
        let mut k: usize = 0;
        while k < self.probes.len()
            invariant
                k <= self.probes.len(),
                run_renderable(*self),
                width == name_width(self.probes@.subrange(0, k as int)),
            decreases self.probes.len() - k,
        {
            assert(self.probes@.subrange(0, k + 1).drop_last() =~= self.probes@.subrange(0, k as int));
            assert(encode_utf8(self.probes@[k as int].name@).len() <= usize::MAX);
            let l = self.probes[k].name.len();
            if l > width {
                width = l;
            }
            k += 1;
        }
        assert(self.probes@.subrange(0, k as int) =~= self.probes@);

        let mut out = String::new();
        push_str(&mut out, "streaming: ");
        push_str(&mut out, self.backend);
        push_str(&mut out, "\n\n");
        let ghost head = out@;
        let mut dimension: &str = "";
        proof {
            reveal_strlit("");
        }
        let mut i: usize = 0;
        while i < self.probes.len()
            invariant
                i <= self.probes.len(),
                dimension@ == previous_dimension(self.probes@, i as int),
                out@ == head + probe_texts(self.probes@, i as int, width as nat),
            decreases self.probes.len() - i,
        {
            push_probe(&mut out, &self.probes[i], width, dimension);
            dimension = self.probes[i].dimension;
            i += 1;
        }
        push_str(&mut out, "\n");
        let t = self.tally();
        push_str(&mut out, t.as_str());
        push_str(&mut out, "\n");
        assert(out@ =~= run_text(*self));
        out
    }

    /// Each outcome label once with its count, the most frequent first, ties
    /// in the order the labels first appear.
    pub fn tally(&self) -> (r: String)
        ensures
            r@ == tally_text(labels_of(self.probes@)),
    {
        let ghost labels = labels_of(self.probes@);
        let mut names: Vec<&'static str> = Vec::new();
        let mut counts: Vec<usize> = Vec::new();
        let mut i: usize = 0;
        while i < self.probes.len()
            invariant
                i <= self.probes.len(),
                labels == labels_of(self.probes@),
                names.len() == counts.len(),
                names@.len() == first_seen(labels.subrange(0, i as int)).len(),
                forall|k: int|
                    0 <= k < names.len() ==> #[trigger] names@[k]@ == first_seen(
                        labels.subrange(0, i as int),
                    )[k],
                forall|k: int|
                    0 <= k < counts.len() ==> #[trigger] counts@[k] == occurrences(
                        labels.subrange(0, i as int),
                        names@[k]@,
                    ),
                forall|k: int| 0 <= k < counts.len() ==> #[trigger] counts@[k] <= i,
            decreases self.probes.len() - i,
        {
            let ghost pre = labels.subrange(0, i as int);
            let ghost post = labels.subrange(0, i + 1);
            let label = self.probes[i].outcome.label();
            proof {
                assert(post.drop_last() =~= pre);
                assert(post.last() == label@);
                lemma_first_seen_contains(pre, label@);
                lemma_first_seen_distinct(pre);
            }
            let mut k: usize = 0;
            while k < names.len() && !same_text(names[k], label)
                invariant
                    k <= names.len(),
                    forall|m: int| 0 <= m < k ==> #[trigger] names@[m]@ != label@,
                decreases names.len() - k,
            {
                k += 1;
            }
            if k < names.len() {
                let c = counts[k];
                counts.set(k, c + 1);
                proof {
                    assert(first_seen(pre).contains(label@)) by {
                        assert(first_seen(pre)[k as int] == label@);
                    }
                    assert(first_seen(post) == first_seen(pre));
                    assert forall|m: int| 0 <= m < counts.len() implies #[trigger] counts@[m]
                        == occurrences(post, names@[m]@) by {
                        if m != k {
                            assert(first_seen(pre)[m] != first_seen(pre)[k as int]);
                        }
                    }
                }
            } else {
                names.push(label);
                counts.push(1);
                proof {
                    assert(!first_seen(pre).contains(label@)) by {
                        if first_seen(pre).contains(label@) {
                            let m = choose|m: int| 0 <= m < first_seen(pre).len() && first_seen(pre)[m] == label@;
                            assert(names@[m]@ == label@);
                        }
                    }
                    assert(first_seen(post) == first_seen(pre).push(label@));
                    lemma_first_seen_contains(pre, label@);
                    assert(occurrences(pre, label@) == 0) by {
                        lemma_absent_occurrences(pre, label@);
                    }
                    assert forall|m: int| 0 <= m < counts.len() implies #[trigger] counts@[m]
                        == occurrences(post, names@[m]@) by {
                        if m < counts.len() - 1 {
                            assert(names@[m]@ == first_seen(pre)[m]);
                            assert(first_seen(pre)[m] != label@) by {
                                if first_seen(pre)[m] == label@ {
                                    assert(first_seen(pre).contains(label@));
                                }
                            }
                        }
                    }
                }
            }
            i += 1;
        }
        assert(labels.subrange(0, i as int) =~= labels);
        let ghost seen = first_seen(labels);
        let ghost cs = seen_counts(labels);
        assert(cs.len() == counts.len());
        assert forall|m: int| 0 <= m < counts.len() implies #[trigger] cs[m] == counts@[m] as nat by {
            assert(names@[m]@ == seen[m]);
        }

        // Rank the labels: insert each after those at least as frequent.
        let mut rank: Vec<usize> = Vec::new();
        let ghost mut ord: Seq<int> = Seq::empty();
        let mut j: usize = 0;
        while j < counts.len()
            invariant
                j <= counts.len(),
                cs.len() == counts.len(),
                forall|m: int| 0 <= m < counts.len() ==> #[trigger] cs[m] == counts@[m] as nat,
                rank@.len() == j,
                ord.len() == j,
                forall|m: int| 0 <= m < j ==> #[trigger] ord[m] == rank@[m] as int,
                forall|m: int| 0 <= m < j ==> 0 <= #[trigger] ord[m] < j,
                forall|m: int, l: int| 0 <= m < l < j ==> #[trigger] ord[m] != #[trigger] ord[l],
                forall|m: int, l: int|
                    0 <= m < l < j ==> ranked_before(cs, #[trigger] ord[m], #[trigger] ord[l]),
            decreases counts.len() - j,
        {
            assert forall|m: int| 0 <= m < j implies 0 <= #[trigger] rank@[m] < j by {
                assert(ord[m] == rank@[m] as int);
            }
            let mut p: usize = 0;
            while p < rank.len() && counts[rank[p]] >= counts[j]
                invariant
                    p <= rank.len(),
                    j < counts.len(),
                    rank@.len() == j,
                    forall|m: int| 0 <= m < j ==> 0 <= #[trigger] rank@[m] < j,
                    forall|m: int| 0 <= m < p ==> counts@[#[trigger] rank@[m] as int] >= counts@[j as int],
                decreases rank.len() - p,
            {
                assert(0 <= rank@[p as int] < j);
                p += 1;
            }
            let ghost old_ord = ord;
            proof {
                ord = old_ord.insert(p as int, j as int);
                assert forall|m: int| 0 <= m < j implies 0 <= #[trigger] old_ord[m] < j by {}
            }
            rank.insert(p, j);
            proof {
                assert forall|m: int| 0 <= m < j + 1 implies #[trigger] ord[m] == rank@[m] as int by {
                    if m < p {
                        assert(ord[m] == old_ord[m]);
                    } else if m > p {
                        assert(ord[m] == old_ord[m - 1]);
                    }
                }
                assert forall|m: int| 0 <= m < j + 1 implies 0 <= #[trigger] ord[m] < j + 1 by {
                    if m < p {
                        assert(ord[m] == old_ord[m]);
                    } else if m > p {
                        assert(ord[m] == old_ord[m - 1]);
                    }
                }
                assert forall|m: int, l: int| 0 <= m < l < j + 1 implies #[trigger] ord[m] != #[trigger] ord[l] by {
                    if m < p && l < p {
                        assert(ord[m] == old_ord[m] && ord[l] == old_ord[l]);
                    } else if m < p && l == p {
                        assert(ord[m] == old_ord[m]);
                    } else if m < p {
                        assert(ord[m] == old_ord[m] && ord[l] == old_ord[l - 1]);
                    } else if m == p {
                        assert(ord[l] == old_ord[l - 1]);
                    } else {
                        assert(ord[m] == old_ord[m - 1] && ord[l] == old_ord[l - 1]);
                    }
                }
                assert forall|m: int, l: int| 0 <= m < l < j + 1 implies ranked_before(
                    cs,
                    #[trigger] ord[m],
                    #[trigger] ord[l],
                ) by {
                    if m < p && l < p {
                        assert(ord[m] == old_ord[m] && ord[l] == old_ord[l]);
                    } else if m < p && l == p {
                        assert(ord[m] == old_ord[m]);
                        assert(counts@[rank@[m] as int] >= counts@[j as int]);
                    } else if m < p {
                        assert(ord[m] == old_ord[m] && ord[l] == old_ord[l - 1]);
                    } else if m == p {
                        assert(ord[l] == old_ord[l - 1]);
                        assert(p < j);
                        assert(counts@[old_ord[p as int]] < counts@[j as int]);
                        if l - 1 > p {
                            assert(ranked_before(cs, old_ord[p as int], old_ord[l - 1]));
                        }
                    } else {
                        assert(ord[m] == old_ord[m - 1] && ord[l] == old_ord[l - 1]);
                    }
                }
            }
            j += 1;
        }
        proof {
            assert(ranks(cs, ord));
            lemma_ranks_unique(cs, ord, tally_order(labels));
        }

        let ghost items = ord.map_values(|k: int| tally_item(seen[k], cs[k]));
        assert forall|m: int| 0 <= m < rank.len() implies #[trigger] rank@[m] < names.len() by {
            assert(ord[m] == rank@[m] as int);
        }
        let mut out = String::new();
        let mut k: usize = 0;
        while k < rank.len()
            invariant
                k <= rank.len(),
                names.len() == counts.len(),
                rank@.len() == counts.len(),
                items.len() == rank.len(),
                forall|m: int| 0 <= m < rank.len() ==> #[trigger] rank@[m] < names.len(),
                forall|m: int|
                    0 <= m < rank.len() ==> #[trigger] items[m] == tally_item(
                        names@[rank@[m] as int]@,
                        counts@[rank@[m] as int] as nat,
                    ),
                out@ == joined(items.subrange(0, k as int)),
            decreases rank.len() - k,
        {
            assert(items.subrange(0, k + 1).drop_last() =~= items.subrange(0, k as int));
            let r = rank[k];
            if k > 0 {
                push_str(&mut out, ", ");
            }
            push_str(&mut out, names[r]);
            push_str(&mut out, " ");
            push_decimal(&mut out, counts[r] as u128);
            proof {
                if k == 0 {
                    assert(items.subrange(0, 1)[0] == items[0]);
                }
            }
            k += 1;
            assert(out@ =~= joined(items.subrange(0, k as int)));
        }
        assert(items.subrange(0, k as int) =~= items);
        out
    }
}

/// A label that does not occur has no occurrences.
pub proof fn lemma_absent_occurrences(labels: Seq<Seq<char>>, x: Seq<char>)
    requires
        !labels.contains(x),
    ensures
        occurrences(labels, x) == 0,
    decreases labels.len(),
{
    if labels.len() > 0 {
        let pre = labels.drop_last();
        assert(!pre.contains(x)) by {
            if pre.contains(x) {
                let k = choose|k: int| 0 <= k < pre.len() && pre[k] == x;
                assert(labels[k] == x);
            }
        }
        assert(labels[labels.len() - 1] != x);
        lemma_absent_occurrences(pre, x);
    }
}

/// The occurrences in `labels` of each of `names`, added up.
pub open spec fn occurrence_sum(labels: Seq<Seq<char>>, names: Seq<Seq<char>>) -> nat
    decreases names.len(),
{
    if names.len() == 0 {
        0
    } else {
        occurrence_sum(labels, names.drop_last()) + occurrences(labels, names.last())
    }
}

/// A label that occurs in a list without repeats occurs there once.
pub proof fn lemma_occurs_once(names: Seq<Seq<char>>, x: Seq<char>)
    requires
        names.contains(x),
        forall|i: int, j: int| 0 <= i < j < names.len() ==> names[i] != names[j],
    ensures
        occurrences(names, x) == 1,
    decreases names.len(),
{
    let pre = names.drop_last();
    if names.last() == x {
        assert(!pre.contains(x)) by {
            if pre.contains(x) {
                let k = choose|k: int| 0 <= k < pre.len() && pre[k] == x;
                assert(names[k] != names[names.len() - 1]);
            }
        }
        lemma_absent_occurrences(pre, x);
    } else {
        let k = choose|k: int| 0 <= k < names.len() && names[k] == x;
        assert(k < pre.len());
        assert(pre[k] == x);
        lemma_occurs_once(pre, x);
    }
}

/// One more label adds, to the counts of `names`, the times it is among them.
proof fn lemma_occurrence_sum_push(labels: Seq<Seq<char>>, l: Seq<char>, names: Seq<Seq<char>>)
    ensures
        occurrence_sum(labels.push(l), names) == occurrence_sum(labels, names) + occurrences(names, l),
    decreases names.len(),
{
    if names.len() > 0 {
        lemma_occurrence_sum_push(labels, l, names.drop_last());
        assert(labels.push(l).drop_last() =~= labels);
    }
}

/// The tally counts every label once: over the labels each seen once, the
/// counts add up to the number of labels.
pub proof fn law_tally_counts_all(labels: Seq<Seq<char>>)
    ensures
        occurrence_sum(labels, first_seen(labels)) == labels.len(),
    decreases labels.len(),
{
    if labels.len() > 0 {
        let pre = labels.drop_last();
        let l = labels.last();
        let seen = first_seen(pre);
        assert(labels =~= pre.push(l));
        law_tally_counts_all(pre);
        lemma_occurrence_sum_push(pre, l, seen);
        lemma_first_seen_contains(pre, l);
        lemma_first_seen_distinct(pre);
        if pre.contains(l) {
            lemma_occurs_once(seen, l);
        } else {
            lemma_absent_occurrences(seen, l);
            lemma_absent_occurrences(pre, l);
            assert(first_seen(labels) == seen.push(l));
            assert(seen.push(l).drop_last() =~= seen);
        }
    }
}

/// The tally of a run counts each probe once.
pub proof fn law_tally_counts_each_probe(probes: Seq<Probe>)
    ensures
        occurrence_sum(labels_of(probes), first_seen(labels_of(probes))) == probes.len(),
{
    law_tally_counts_all(labels_of(probes));
}

} // verus!
