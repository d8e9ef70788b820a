//! Orders the guest test files and picks the ones a run asks for.

use vstd::prelude::*;
use vstd::string::*;

use crate::order::{is_permutation, lemma_permutation_onto};
use crate::text::{
    contains, contains_text, lemma_text_le_antisymmetric, lemma_text_le_total,
    lemma_text_le_transitive, text_le, text_le_exec, text_lt,
};

verus! {

broadcast use vstd::string::group_string_axioms;

/// One guest file, and the area it scores under.
pub struct Entry {
    pub area: String,
    pub display: String,
    pub path: String,
}

/// `sorted` is `entries` ordered by display name, entry `k` of `sorted` being
/// entry `order[k]` of `entries`, and entries with the same name keeping the
/// order they had.
pub open spec fn sorts_by(entries: Seq<Entry>, sorted: Seq<Entry>, order: Seq<int>) -> bool {
    &&& sorted.len() == entries.len()
    &&& is_permutation(order, entries.len())
    &&& forall|k: int| 0 <= k < sorted.len() ==> #[trigger] sorted[k] == entries[order[k]]
    &&& forall|k: int, l: int|
        0 <= k < l < sorted.len() ==> text_le(#[trigger] sorted[k].display@, #[trigger] sorted[l].display@)
    &&& forall|k: int, l: int|
        0 <= k < l < sorted.len() && sorted[k].display@ == sorted[l].display@ ==> #[trigger] order[k]
            < #[trigger] order[l]
}

/// `sorted` is `entries` ordered by display name, entries with the same name
/// keeping the order they had.
pub open spec fn stably_sorted(entries: Seq<Entry>, sorted: Seq<Entry>) -> bool {
    exists|order: Seq<int>| #[trigger] sorts_by(entries, sorted, order)
}

/// The entry a walked file makes: only `.js` files count, and each is filed
/// under the name of the directory it sits in, or `root` when it has none.
/// `extension` and `parent` are those of the file's path, `display` the path
/// below the suite's root.
pub fn walked_entry(path: String, display: String, extension: Option<&str>, parent: Option<&str>) -> (r: Option<Entry>)
    ensures
        match extension {
            Some(x) if x@ == "js"@ => r matches Some(e) && {
                &&& e.path@ == path@
                &&& e.display@ == display@
                &&& e.area@ == match parent {
                    Some(p) => p@,
                    None => "root"@,
                }
            },
            _ => r is None,
        },
{
    let is_js = match extension {
        Some(x) => crate::text::same_text(x, "js"),
        None => false,
    };
    if !is_js {
        return None;
    }
    let area = match parent {
        Some(p) => crate::text::owned(p),
        None => crate::text::owned("root"),
    };
    Some(Entry { area, display, path })
}

/// The entries a filter keeps: those whose display name contains it, or all.
pub open spec fn kept(entries: Seq<Entry>, filter: Option<Seq<char>>) -> Seq<Entry>
    decreases entries.len(),
{
    if entries.len() == 0 {
        Seq::empty()
    } else {
        let rest = kept(entries.drop_last(), filter);
        match filter {
            Some(f) => if contains(entries.last().display@, f) {
                rest.push(entries.last())
            } else {
                rest
            },
            None => rest.push(entries.last()),
        }
    }
}

/// The text of the filter, if there is one.
pub open spec fn filter_text(filter: Option<&str>) -> Option<Seq<char>> {
    match filter {
        Some(f) => Some(f@),
        None => None,
    }
}

/// Every walked entry sorted by display name, then those the filter keeps.
pub fn collect(walked: Vec<Entry>, filter: Option<&str>) -> (r: Vec<Entry>)
    ensures
        exists|sorted: Seq<Entry>|
            stably_sorted(walked@, sorted) && r@ == kept(sorted, filter_text(filter)),
{
    let ghost input = walked@;
    let mut rest = walked;
    let total = rest.len();
    assert(input.len() == total);
    let mut sorted: Vec<Entry> = Vec::new();
    let ghost mut order: Seq<int> = Seq::empty();
    let mut i: usize = 0;
    while rest.len() > 0
        invariant
            input.len() <= usize::MAX,
            i + rest@.len() == input.len(),
            rest@ == input.skip(i as int),
            sorted@.len() == i,
            order.len() == i,
            forall|k: int| 0 <= k < i ==> 0 <= #[trigger] order[k] < i,
            forall|k: int, l: int| 0 <= k < l < i ==> #[trigger] order[k] != #[trigger] order[l],
            forall|k: int| 0 <= k < i ==> #[trigger] sorted@[k] == input[order[k]],
            forall|k: int, l: int|
                0 <= k < l < i ==> text_le(#[trigger] sorted@[k].display@, #[trigger] sorted@[l].display@),
            forall|k: int, l: int|
                0 <= k < l < i && sorted@[k].display@ == sorted@[l].display@ ==> #[trigger] order[k]
                    < #[trigger] order[l],
        decreases rest@.len(),
    {
        let e = rest.remove(0);
        proof {
            assert(rest@ =~= input.skip(i + 1));
            assert(e == input[i as int]);
        }
        let mut j: usize = 0;
        while j < sorted.len() && text_le_exec(sorted[j].display.as_str(), e.display.as_str())
            invariant
                j <= sorted@.len(),
                forall|k: int| 0 <= k < j ==> text_le(#[trigger] sorted@[k].display@, e.display@),
            decreases sorted@.len() - j,
        {
            j += 1;
        }
        let ghost old_sorted = sorted@;
        let ghost old_order = order;
        proof {
            if j < sorted@.len() {
                lemma_text_le_total(old_sorted[j as int].display@, e.display@);
            }
        }
        sorted.insert(j, e);
        proof {
            order = old_order.insert(j as int, i as int);
            assert forall|k: int, l: int|
                0 <= k < l < i + 1 implies text_le(#[trigger] sorted@[k].display@, #[trigger] sorted@[l].display@) by {
                if k < j && l == j {
                } else if k < j && l > j {
                    assert(sorted@[l] == old_sorted[l - 1]);
                } else if k == j {
                    assert(sorted@[l] == old_sorted[l - 1]);
                    if l - 1 > j {
                        assert(text_le(old_sorted[j as int].display@, old_sorted[l - 1].display@));
                        lemma_text_le_transitive(e.display@, old_sorted[j as int].display@, old_sorted[l - 1].display@);
                    }
                } else if l < j {
                    assert(sorted@[k] == old_sorted[k]);
                    assert(sorted@[l] == old_sorted[l]);
                } else {
                    assert(sorted@[k] == old_sorted[k - 1]);
                    assert(sorted@[l] == old_sorted[l - 1]);
                }
            }
            assert forall|k: int, l: int|
                0 <= k < l < i + 1 && sorted@[k].display@ == sorted@[l].display@ implies #[trigger] order[k]
                    < #[trigger] order[l] by {
                if k < j && l == j {
                    assert(order[k] == old_order[k]);
                } else if k < j && l > j {
                    assert(order[l] == old_order[l - 1]);
                    assert(sorted@[l] == old_sorted[l - 1]);
                } else if k == j {
                    assert(sorted@[l] == old_sorted[l - 1]);
                    assert(!text_le(old_sorted[j as int].display@, e.display@));
                    if l - 1 > j {
                        assert(text_le(old_sorted[j as int].display@, old_sorted[l - 1].display@));
                        if e.display@ == old_sorted[l - 1].display@ {
                            lemma_text_le_antisymmetric(old_sorted[j as int].display@, e.display@);
                            crate::text::lemma_text_le_reflexive(e.display@);
                        }
                    }
                } else if l < j {
                    assert(sorted@[k] == old_sorted[k]);
                    assert(sorted@[l] == old_sorted[l]);
                } else {
                    assert(sorted@[k] == old_sorted[k - 1]);
                    assert(sorted@[l] == old_sorted[l - 1]);
                }
            }
            assert forall|k: int| 0 <= k < i + 1 implies #[trigger] sorted@[k] == input[order[k]] by {
                if k < j {
                    assert(sorted@[k] == old_sorted[k]);
                } else if k > j {
                    assert(sorted@[k] == old_sorted[k - 1]);
                }
            }
        }
        i += 1;
    }
    proof {
        assert(is_permutation(order, input.len()));
        assert(sorts_by(input, sorted@, order));
    }
    let ghost sorted_view = sorted@;
    assert(stably_sorted(input, sorted_view));

    let mut out: Vec<Entry> = Vec::new();
    let mut taken: usize = 0;
    let ghost fview = filter_text(filter);
    while sorted.len() > 0
        invariant
            sorted_view.len() <= usize::MAX,
            taken + sorted@.len() == sorted_view.len(),
            sorted@ == sorted_view.skip(taken as int),
            fview == filter_text(filter),
            out@ == kept(sorted_view.take(taken as int), fview),
        decreases sorted@.len(),
    {
        let e = sorted.remove(0);
        proof {
            assert(sorted@ =~= sorted_view.skip(taken + 1));
            assert(sorted_view.take(taken + 1).drop_last() =~= sorted_view.take(taken as int));
            assert(sorted_view.take(taken + 1).last() == e);
        }
        let keep = match filter {
            Some(f) => contains_text(e.display.as_str(), f),
            None => true,
        };
        if keep {
            out.push(e);
        }
        taken += 1;
    }
    assert(sorted_view.take(taken as int) =~= sorted_view);
    out
}

/// Without a filter, every entry is kept, in order.
pub proof fn law_no_filter_keeps_all(entries: Seq<Entry>)
    ensures
        kept(entries, None) == entries,
    decreases entries.len(),
{
    if entries.len() > 0 {
        law_no_filter_keeps_all(entries.drop_last());
        assert(entries.drop_last().push(entries.last()) =~= entries);
    }
}

/// A filter only ever drops entries: each kept entry is one of the entries,
/// and its display name contains the filter.
pub proof fn law_kept_match(entries: Seq<Entry>, f: Seq<char>)
    ensures
        forall|k: int| 0 <= k < kept(entries, Some(f)).len() ==> contains(#[trigger] kept(entries, Some(f))[k].display@, f),
        forall|k: int| 0 <= k < kept(entries, Some(f)).len() ==> entries.contains(#[trigger] kept(entries, Some(f))[k]),
        kept(entries, Some(f)).len() <= entries.len(),
    decreases entries.len(),
{
    if entries.len() > 0 {
        let pre = entries.drop_last();
        law_kept_match(pre, f);
        let r = kept(entries, Some(f));
        let rp = kept(pre, Some(f));
        assert forall|k: int| 0 <= k < r.len() implies entries.contains(#[trigger] r[k]) by {
            if k < rp.len() {
                assert(r[k] == rp[k]);
                let m = choose|m: int| 0 <= m < pre.len() && pre[m] == rp[k];
                assert(entries[m] == pre[m]);
            } else {
                assert(r[k] == entries[entries.len() - 1]);
            }
        }
        assert forall|k: int| 0 <= k < r.len() implies contains(#[trigger] r[k].display@, f) by {
            if k < rp.len() {
                assert(r[k] == rp[k]);
            }
        }
    }
}

/// Entry `i` of `entries` comes before entry `j` once sorted: a smaller name,
/// or the same name and an earlier place.
pub open spec fn before(entries: Seq<Entry>, i: int, j: int) -> bool {
    ||| text_lt(entries[i].display@, entries[j].display@)
    ||| (entries[i].display@ == entries[j].display@ && i < j)
}

/// Two different places are never each before the other.
proof fn lemma_before_asymmetric(entries: Seq<Entry>, i: int, j: int)
    ensures
        !(before(entries, i, j) && before(entries, j, i)),
{
    let a = entries[i].display@;
    let b = entries[j].display@;
    if text_lt(a, b) && text_lt(b, a) {
        lemma_text_le_antisymmetric(a, b);
    }
}

/// The order a stable sort takes puts each entry before every later one.
proof fn lemma_sorted_order_before(entries: Seq<Entry>, sorted: Seq<Entry>, order: Seq<int>, k: int, l: int)
    requires
        sorts_by(entries, sorted, order),
        0 <= k < l < sorted.len(),
    ensures
        before(entries, order[k], order[l]),
{
    assert(sorted[k] == entries[order[k]]);
    assert(sorted[l] == entries[order[l]]);
    assert(text_le(sorted[k].display@, sorted[l].display@));
    if sorted[k].display@ == sorted[l].display@ {
        assert(order[k] < order[l]);
    }
}

/// Two stable sorts of the same entries take the same order up to `k`.
proof fn lemma_orders_agree(
    entries: Seq<Entry>,
    s1: Seq<Entry>,
    o1: Seq<int>,
    s2: Seq<Entry>,
    o2: Seq<int>,
    k: int,
)
    requires
        sorts_by(entries, s1, o1),
        sorts_by(entries, s2, o2),
        0 <= k <= entries.len(),
    ensures
        forall|m: int| 0 <= m < k ==> #[trigger] o1[m] == o2[m],
    decreases k,
{
    if k > 0 {
        let j = k - 1;
        lemma_orders_agree(entries, s1, o1, s2, o2, j);
        let n = entries.len();
        let a = o1[j];
        let b = o2[j];
        if a != b {
            lemma_permutation_onto(o2, n, a);
            let m = choose|m: int| 0 <= m < o2.len() && o2[m] == a;
            if m < j {
                assert(o1[m] == o2[m]);
                assert(o1[m] != o1[j]);
            }
            lemma_sorted_order_before(entries, s2, o2, j, m);
            lemma_permutation_onto(o1, n, b);
            let p = choose|p: int| 0 <= p < o1.len() && o1[p] == b;
            if p < j {
                assert(o1[p] == o2[p]);
                assert(o2[p] != o2[j]);
            }
            lemma_sorted_order_before(entries, s1, o1, j, p);
            lemma_before_asymmetric(entries, a, b);
        }
    }
}

/// Sorting is deterministic: the entries have exactly one stable order by
/// display name, so the order a run takes does not depend on how the files
/// were walked beyond the walk order of files with the same name.
pub proof fn law_stable_order_unique(entries: Seq<Entry>, s1: Seq<Entry>, s2: Seq<Entry>)
    requires
        stably_sorted(entries, s1),
        stably_sorted(entries, s2),
    ensures
        s1 == s2,
{
    let o1 = choose|order: Seq<int>| #[trigger] sorts_by(entries, s1, order);
    let o2 = choose|order: Seq<int>| #[trigger] sorts_by(entries, s2, order);
    lemma_orders_agree(entries, s1, o1, s2, o2, entries.len() as int);
    assert forall|k: int| 0 <= k < s1.len() implies s1[k] == s2[k] by {
        assert(o1[k] == o2[k]);
        assert(s1[k] == entries[o1[k]]);
        assert(s2[k] == entries[o2[k]]);
    }
    assert(s1 =~= s2);
}

/// With a filter, an entry is kept exactly when its display path contains
/// the filter, whatever its area: the kept entries are the entries whose
/// display path holds it, all of them, in their order.
pub proof fn law_kept_by_display(entries: Seq<Entry>, f: Seq<char>)
    ensures
        kept(entries, Some(f)) == entries.filter(|e: Entry| contains(e.display@, f)),
    decreases entries.len(),
{
    reveal(Seq::filter);
    if entries.len() > 0 {
        law_kept_by_display(entries.drop_last(), f);
    }
}

} // verus!
