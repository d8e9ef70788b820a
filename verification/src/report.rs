//! Scoreboard: what each runtime actually implements, not whether it passed.

use vstd::prelude::*;
use vstd::string::*;
use vstd::utf8::*;

use crate::text::{
    decimal, lemma_text_le_antisymmetric, lemma_text_le_reflexive, lemma_text_le_total,
    lemma_text_le_transitive, owned, padded, push_decimal, push_padded, push_repeated, push_str,
    repeated, spaces, text_le, text_le_exec, text_lt, chars_of, push_char,
};

verus! {

broadcast use vstd::string::group_string_axioms;

/// One guest test and what became of it.
#[derive(Debug, Clone)]
pub struct TestOutcome {
    pub name: String,
    pub passed: bool,
    pub error: String,
}

/// One guest file and the outcome of each test it declares.
#[derive(Debug, Clone)]
pub struct FileReport {
    pub area: String,
    pub path: String,
    /// Set when the file never ran: parse error, worker init failure, timeout.
    pub error: Option<String>,
    pub tests: Vec<TestOutcome>,
}

/// How many of `tests` passed.
pub open spec fn count_passed(tests: Seq<TestOutcome>) -> nat
    decreases tests.len(),
{
    if tests.len() == 0 {
        0
    } else {
        count_passed(tests.drop_last()) + if tests.last().passed { 1nat } else { 0nat }
    }
}

/// The first test of `tests` that did not pass.
pub open spec fn first_failed(tests: Seq<TestOutcome>) -> Option<TestOutcome>
    decreases tests.len(),
{
    if tests.len() == 0 {
        None
    } else if !tests[0].passed {
        Some(tests[0])
    } else {
        first_failed(tests.drop_first())
    }
}

/// No more tests pass than there are.
pub proof fn lemma_count_passed_bounded(tests: Seq<TestOutcome>)
    ensures
        count_passed(tests) <= tests.len(),
    decreases tests.len(),
{
    if tests.len() > 0 {
        lemma_count_passed_bounded(tests.drop_last());
    }
}

impl FileReport {
    /// The file was found but never reached the guest: every declared test
    /// fails with the same reason.
    pub fn aborted(area: &str, path: &str, declared: Vec<String>, reason: String) -> (r: Self)
        ensures
            r.area@ == area@,
            r.path@ == path@,
            r.error matches Some(e) && e@ == reason@,
            r.tests.len() == declared.len(),
            forall|i: int|
                0 <= i < declared.len() ==> {
                    &&& #[trigger] r.tests@[i].name@ == declared@[i]@
                    &&& !r.tests@[i].passed
                    &&& r.tests@[i].error@ == reason@
                },
    {
        let mut tests: Vec<TestOutcome> = Vec::new();
        let mut i: usize = 0;
        while i < declared.len()
            invariant
                i <= declared.len(),
                tests.len() == i,
                forall|k: int|
                    0 <= k < i ==> {
                        &&& #[trigger] tests@[k].name@ == declared@[k]@
                        &&& !tests@[k].passed
                        &&& tests@[k].error@ == reason@
                    },
            decreases declared.len() - i,
        {
            tests.push(TestOutcome { name: declared[i].clone(), passed: false, error: reason.clone() });
            i += 1;
        }
        FileReport { area: owned(area), path: owned(path), error: Some(reason), tests }
    }

    /// The suite itself is broken, so the file has no denominator at all.
    pub fn unreadable(area: &str, path: &str, reason: String) -> (r: Self)
        ensures
            r.area@ == area@,
            r.path@ == path@,
            r.error matches Some(e) && e@ == reason@,
            r.tests.len() == 0,
    {
        FileReport { area: owned(area), path: owned(path), error: Some(reason), tests: Vec::new() }
    }

    /// How many of the file's tests passed.
    pub fn passed(&self) -> (n: usize)
        ensures
            n == count_passed(self.tests@),
    {
        let mut n: usize = 0;
        let mut i: usize = 0;
        while i < self.tests.len()
            invariant
                i <= self.tests.len(),
                n == count_passed(self.tests@.subrange(0, i as int)),
                n <= i,
            decreases self.tests.len() - i,
        {
            assert(self.tests@.subrange(0, i + 1).drop_last() =~= self.tests@.subrange(0, i as int));
            if self.tests[i].passed {
                n += 1;
            }
            i += 1;
        }
        assert(self.tests@.subrange(0, i as int) =~= self.tests@);
        n
    }

    /// How many tests the file counts.
    pub fn total(&self) -> (n: usize)
        ensures
            n == self.tests.len(),
    {
        self.tests.len()
    }

    /// The first test that did not pass, if any.
    pub fn first_failure(&self) -> (r: Option<&TestOutcome>)
        ensures
            match r {
                Some(t) => first_failed(self.tests@) == Some(*t),
                None => first_failed(self.tests@) is None,
            },
    {
        let mut i: usize = 0;
        assert(self.tests@.skip(0) =~= self.tests@);
        while i < self.tests.len()
            invariant
                i <= self.tests.len(),
                first_failed(self.tests@) == first_failed(self.tests@.skip(i as int)),
            decreases self.tests.len() - i,
        {
            if !self.tests[i].passed {
                return Some(&self.tests[i]);
            }
            assert(self.tests@.skip(i as int).drop_first() =~= self.tests@.skip(i + 1));
            i += 1;
        }
        None
    }
}


/// One file's total plus those of the files before it.
pub open spec fn sum_total(files: Seq<FileReport>) -> nat
    decreases files.len(),
{
    if files.len() == 0 {
        0
    } else {
        sum_total(files.drop_last()) + files.last().tests@.len()
    }
}

/// The passed tests of all `files`.
pub open spec fn sum_passed(files: Seq<FileReport>) -> nat
    decreases files.len(),
{
    if files.len() == 0 {
        0
    } else {
        sum_passed(files.drop_last()) + count_passed(files.last().tests@)
    }
}

/// The tests of the files filed under `area`.
pub open spec fn area_total(files: Seq<FileReport>, area: Seq<char>) -> nat
    decreases files.len(),
{
    if files.len() == 0 {
        0
    } else {
        area_total(files.drop_last(), area) + if files.last().area@ == area {
            files.last().tests@.len()
        } else {
            0
        }
    }
}

/// The passed tests of the files filed under `area`.
pub open spec fn area_passed(files: Seq<FileReport>, area: Seq<char>) -> nat
    decreases files.len(),
{
    if files.len() == 0 {
        0
    } else {
        area_passed(files.drop_last(), area) + if files.last().area@ == area {
            count_passed(files.last().tests@)
        } else {
            0
        }
    }
}

/// Some file is filed under `area`.
pub open spec fn names_area(files: Seq<FileReport>, area: Seq<char>) -> bool {
    exists|k: int| 0 <= k < files.len() && #[trigger] files[k].area@ == area
}

/// One area and the score of the files filed under it.
pub struct AreaScore {
    pub name: String,
    pub passed: usize,
    pub total: usize,
}

/// `table` holds `area` as one of its names.
pub open spec fn table_has(table: Seq<AreaScore>, area: Seq<char>) -> bool {
    exists|i: int| 0 <= i < table.len() && #[trigger] table[i].name@ == area
}

/// `table` lists each area of `files` once, in order, with its score.
pub open spec fn is_area_table(files: Seq<FileReport>, table: Seq<AreaScore>) -> bool {
    &&& forall|i: int, j: int|
        0 <= i < j < table.len() ==> text_lt(#[trigger] table[i].name@, #[trigger] table[j].name@)
    &&& forall|a: Seq<char>| #[trigger] table_has(table, a) <==> names_area(files, a)
    &&& forall|i: int|
        0 <= i < table.len() ==> {
            &&& #[trigger] table[i].passed == area_passed(files, table[i].name@)
            &&& table[i].total == area_total(files, table[i].name@)
        }
}

/// The three parts of a table make a table.
proof fn lemma_table_parts(files: Seq<FileReport>, table: Seq<AreaScore>)
    requires
        forall|x: int, y: int|
            0 <= x < y < table.len() ==> text_lt(#[trigger] table[x].name@, #[trigger] table[y].name@),
        forall|a: Seq<char>| #[trigger] table_has(table, a) <==> names_area(files, a),
        forall|m: int|
            0 <= m < table.len() ==> {
                &&& #[trigger] table[m].passed == area_passed(files, table[m].name@)
                &&& table[m].total == area_total(files, table[m].name@)
            },
    ensures
        is_area_table(files, table),
{
}

/// A prefix of the files counts no more tests than all of them.
pub proof fn lemma_sum_total_prefix(files: Seq<FileReport>, i: int)
    requires
        0 <= i <= files.len(),
    ensures
        sum_total(files.subrange(0, i)) <= sum_total(files),
    decreases files.len(),
{
    if i < files.len() {
        lemma_sum_total_prefix(files.drop_last(), i);
        assert(files.drop_last().subrange(0, i) =~= files.subrange(0, i));
    } else {
        assert(files.subrange(0, i) =~= files);
    }
}

/// Passed tests never outnumber tests, file by file or in all.
pub proof fn lemma_sums_bounded(files: Seq<FileReport>, area: Seq<char>)
    ensures
        sum_passed(files) <= sum_total(files),
        area_passed(files, area) <= area_total(files, area),
        area_total(files, area) <= sum_total(files),
    decreases files.len(),
{
    if files.len() > 0 {
        lemma_sums_bounded(files.drop_last(), area);
        lemma_count_passed_bounded(files.last().tests@);
    }
}

/// An area no file is filed under scores nothing.
pub proof fn lemma_absent_area(files: Seq<FileReport>, area: Seq<char>)
    requires
        !names_area(files, area),
    ensures
        area_total(files, area) == 0,
        area_passed(files, area) == 0,
    decreases files.len(),
{
    if files.len() > 0 {
        let pre = files.drop_last();
        assert(!names_area(pre, area)) by {
            if names_area(pre, area) {
                let k = choose|k: int| 0 <= k < pre.len() && #[trigger] pre[k].area@ == area;
                assert(files[k] == pre[k]);
            }
        }
        assert(files[files.len() - 1].area@ != area);
        lemma_absent_area(pre, area);
    }
}

/// What one more file adds to the sums and the areas.
proof fn lemma_push_file(pre: Seq<FileReport>, f: FileReport)
    ensures
        forall|a: Seq<char>|
            #[trigger] area_total(pre.push(f), a) == area_total(pre, a) + if f.area@ == a {
                f.tests@.len()
            } else {
                0
            },
        forall|a: Seq<char>|
            #[trigger] area_passed(pre.push(f), a) == area_passed(pre, a) + if f.area@ == a {
                count_passed(f.tests@)
            } else {
                0
            },
        forall|a: Seq<char>|
            #[trigger] names_area(pre.push(f), a) <==> (names_area(pre, a) || f.area@ == a),
        sum_total(pre.push(f)) == sum_total(pre) + f.tests@.len(),
        sum_passed(pre.push(f)) == sum_passed(pre) + count_passed(f.tests@),
{
    let post = pre.push(f);
    assert(post.drop_last() =~= pre);
    assert forall|a: Seq<char>| #[trigger] names_area(post, a) <==> (names_area(pre, a) || f.area@ == a) by {
        if names_area(pre, a) {
            let k = choose|k: int| 0 <= k < pre.len() && #[trigger] pre[k].area@ == a;
            assert(post[k] == pre[k]);
        }
        if f.area@ == a {
            assert(post[pre.len() as int] == f);
        }
        if names_area(post, a) {
            let k = choose|k: int| 0 <= k < post.len() && #[trigger] post[k].area@ == a;
            if k < pre.len() {
                assert(post[k] == pre[k]);
            }
        }
    }
}

/// The whole-number percentage `{passed * 100 / total}%`, or `-` with no tests.
pub open spec fn percent_text(passed: nat, total: nat) -> Seq<char> {
    if total == 0 {
        "-"@
    } else {
        decimal(passed * 100 / total) + "%"@
    }
}

/// The percentage column of the scoreboard.
pub fn percent(passed: usize, total: usize) -> (r: String)
    requires
        passed * 100 <= usize::MAX,
    ensures
        r@ == percent_text(passed as nat, total as nat),
{
    if total == 0 {
        return owned("-");
    }
    let mut r = String::new();
    push_decimal(&mut r, (passed * 100 / total) as u128);
    push_str(&mut r, "%");
    assert(r@ =~= percent_text(passed as nat, total as nat));
    r
}

/// Every tested file.
pub struct Suite {
    pub backend: String,
    pub passed: usize,
    pub total: usize,
    pub files: Vec<FileReport>,
}

impl Suite {
    /// A scoreboard whose totals are the sums over its files.
    pub fn new(backend: &str, files: Vec<FileReport>) -> (r: Self)
        requires
            sum_total(files@) <= usize::MAX,
        ensures
            r.backend@ == backend@,
            r.passed == sum_passed(files@),
            r.total == sum_total(files@),
            r.files == files,
    {
        let mut passed: usize = 0;
        let mut total: usize = 0;
        let mut i: usize = 0;
        while i < files.len()
            invariant
                i <= files.len(),
                sum_total(files@) <= usize::MAX,
                passed == sum_passed(files@.subrange(0, i as int)),
                total == sum_total(files@.subrange(0, i as int)),
            decreases files.len() - i,
        {
            proof {
                assert(files@.subrange(0, i + 1) =~= files@.subrange(0, i as int).push(files@[i as int]));
                lemma_push_file(files@.subrange(0, i as int), files@[i as int]);
                lemma_sum_total_prefix(files@, i + 1);
                lemma_sums_bounded(files@.subrange(0, i + 1), Seq::empty());
            }
            passed = passed + files[i].passed();
            total = total + files[i].total();
            i += 1;
        }
        assert(files@.subrange(0, i as int) =~= files@);
        Suite { backend: owned(backend), passed, total, files }
    }

    /// The score of each area, in the order of the area names.
    pub fn areas(&self) -> (table: Vec<AreaScore>)
        requires
            sum_total(self.files@) <= usize::MAX,
        ensures
            is_area_table(self.files@, table@),
    {
        let mut table: Vec<AreaScore> = Vec::new();
        let mut i: usize = 0;
        while i < self.files.len()
            invariant
                i <= self.files.len(),
                sum_total(self.files@) <= usize::MAX,
                is_area_table(self.files@.subrange(0, i as int), table@),
            decreases self.files.len() - i,
        {
            let ghost pre = self.files@.subrange(0, i as int);
            let ghost post = self.files@.subrange(0, i + 1);
            let f = &self.files[i];
            proof {
                assert(post =~= pre.push(*f));
                lemma_push_file(pre, *f);
                lemma_sum_total_prefix(self.files@, i + 1);
                lemma_sums_bounded(post, f.area@);
            }
            let p = f.passed();
            let t = f.total();
            let mut j: usize = 0;
            while j < table.len() && !text_le_exec(f.area.as_str(), table[j].name.as_str())
                invariant
                    j <= table.len(),
                    forall|m: int| 0 <= m < j ==> text_lt(#[trigger] table@[m].name@, f.area@),
                decreases table.len() - j,
            {
                proof {
                    lemma_text_le_total(f.area@, table@[j as int].name@);
                    if table@[j as int].name@ == f.area@ {
                        lemma_text_le_reflexive(f.area@);
                    }
                }
                j += 1;
            }
            if j < table.len() && table[j].name == f.area {
                let ghost old_table = table@;
                let entry = AreaScore {
                    name: table[j].name.clone(),
                    passed: table[j].passed + p,
                    total: table[j].total + t,
                };
                table.set(j, entry);
                proof {
                    assert forall|a: Seq<char>| #[trigger] table_has(table@, a) <==> table_has(old_table, a) by {
                        if table_has(old_table, a) {
                            let k = choose|k: int| 0 <= k < old_table.len() && #[trigger] old_table[k].name@ == a;
                            assert(table@[k].name@ == a);
                        }
                        if table_has(table@, a) {
                            let k = choose|k: int| 0 <= k < table@.len() && #[trigger] table@[k].name@ == a;
                            assert(old_table[k].name@ == a);
                        }
                    }
                    assert forall|a: Seq<char>| #[trigger] table_has(table@, a) <==> names_area(post, a) by {
                        assert(table_has(old_table, a) <==> names_area(pre, a));
                        if f.area@ == a {
                            assert(old_table[j as int].name@ == a);
                        }
                    }
                    assert forall|x: int, y: int|
                        0 <= x < y < table@.len() implies text_lt(#[trigger] table@[x].name@, #[trigger] table@[y].name@) by {
                        assert(text_lt(old_table[x].name@, old_table[y].name@));
                    }
                    assert forall|m: int| 0 <= m < table@.len() implies {
                        &&& #[trigger] table@[m].passed == area_passed(post, table@[m].name@)
                        &&& table@[m].total == area_total(post, table@[m].name@)
                    } by {
                        assert(old_table[m].passed == area_passed(pre, old_table[m].name@));
                        if m != j {
                            assert(table@[m] == old_table[m]);
                            if m < j {
                                assert(text_lt(old_table[m].name@, old_table[j as int].name@));
                            } else {
                                assert(text_lt(old_table[j as int].name@, old_table[m].name@));
                            }
                            assert(area_passed(post, old_table[m].name@) == area_passed(pre, old_table[m].name@));
                            assert(area_total(post, old_table[m].name@) == area_total(pre, old_table[m].name@));
                        } else {
                            assert(area_passed(post, f.area@) == area_passed(pre, f.area@) + count_passed(f.tests@));
                            assert(area_total(post, f.area@) == area_total(pre, f.area@) + f.tests@.len());
                        }
                    }
                    lemma_table_parts(post, table@);
                    assert(is_area_table(post, table@));
                }
            } else {
                let ghost old_table = table@;
                let entry = AreaScore { name: f.area.clone(), passed: p, total: t };
                table.insert(j, entry);
                proof {
                    assert(!table_has(old_table, f.area@)) by {
                        if table_has(old_table, f.area@) {
                            let k = choose|k: int| 0 <= k < old_table.len() && #[trigger] old_table[k].name@ == f.area@;
                            if k >= j {
                                assert(text_le(f.area@, old_table[j as int].name@));
                                if k > j {
                                    assert(text_lt(old_table[j as int].name@, old_table[k].name@));
                                    lemma_text_le_antisymmetric(f.area@, old_table[j as int].name@);
                                }
                            }
                        }
                    }
                    assert forall|x: int, y: int|
                        0 <= x < y < table@.len() implies text_lt(#[trigger] table@[x].name@, #[trigger] table@[y].name@) by {
                        if y == j {
                            assert(text_lt(old_table[x].name@, f.area@));
                        } else if x == j {
                            assert(y - 1 >= j);
                            assert(text_le(f.area@, old_table[j as int].name@));
                            if y - 1 > j {
                                assert(text_lt(old_table[j as int].name@, old_table[y - 1].name@));
                                lemma_text_le_transitive(f.area@, old_table[j as int].name@, old_table[y - 1].name@);
                                if f.area@ == old_table[y - 1].name@ {
                                    lemma_text_le_antisymmetric(f.area@, old_table[j as int].name@);
                                }
                            } else {
                                assert(old_table[j as int].name@ != f.area@);
                            }
                        } else if x < j && y > j {
                            assert(text_lt(old_table[x].name@, old_table[y - 1].name@));
                        } else if x > j {
                            assert(text_lt(old_table[x - 1].name@, old_table[y - 1].name@));
                        } else {
                            assert(text_lt(old_table[x].name@, old_table[y].name@));
                        }
                    }
                    assert forall|a: Seq<char>| #[trigger] table_has(table@, a) <==> names_area(post, a) by {
                        assert(table_has(old_table, a) <==> names_area(pre, a));
                        if table_has(old_table, a) {
                            let k = choose|k: int| 0 <= k < old_table.len() && #[trigger] old_table[k].name@ == a;
                            if k < j {
                                assert(table@[k].name@ == a);
                            } else {
                                assert(table@[k + 1].name@ == a);
                            }
                        }
                        if f.area@ == a {
                            assert(table@[j as int].name@ == a);
                        }
                        if table_has(table@, a) {
                            let k = choose|k: int| 0 <= k < table@.len() && #[trigger] table@[k].name@ == a;
                            if k < j {
                                assert(old_table[k].name@ == a);
                            } else if k > j {
                                assert(old_table[k - 1].name@ == a);
                            }
                        }
                    }
                    assert forall|m: int| 0 <= m < table@.len() implies {
                        &&& #[trigger] table@[m].passed == area_passed(post, table@[m].name@)
                        &&& table@[m].total == area_total(post, table@[m].name@)
                    } by {
                        if m < j {
                            assert(table@[m] == old_table[m]);
                            assert(table_has(old_table, old_table[m].name@));
                            assert(old_table[m].name@ != f.area@);
                            assert(old_table[m].passed == area_passed(pre, old_table[m].name@));
                            assert(area_passed(post, old_table[m].name@) == area_passed(pre, old_table[m].name@));
                            assert(area_total(post, old_table[m].name@) == area_total(pre, old_table[m].name@));
                        } else if m > j {
                            assert(table@[m] == old_table[m - 1]);
                            assert(table_has(old_table, old_table[m - 1].name@));
                            assert(old_table[m - 1].name@ != f.area@);
                            assert(old_table[m - 1].passed == area_passed(pre, old_table[m - 1].name@));
                            assert(area_passed(post, old_table[m - 1].name@) == area_passed(pre, old_table[m - 1].name@));
                            assert(area_total(post, old_table[m - 1].name@) == area_total(pre, old_table[m - 1].name@));
                        } else {
                            assert(table@[m].name@ == f.area@);
                            assert(!names_area(pre, f.area@));
                            lemma_absent_area(pre, f.area@);
                            assert(area_passed(post, f.area@) == area_passed(pre, f.area@) + count_passed(f.tests@));
                            assert(area_total(post, f.area@) == area_total(pre, f.area@) + f.tests@.len());
                        }
                    }
                    assert(forall|x: int, y: int|
                        0 <= x < y < table@.len() ==> text_lt(#[trigger] table@[x].name@, #[trigger] table@[y].name@));
                    assert(forall|a: Seq<char>| #[trigger] table_has(table@, a) <==> names_area(post, a));
                    assert(forall|m: int| 0 <= m < table@.len() ==> {
                        &&& #[trigger] table@[m].passed == area_passed(post, table@[m].name@)
                        &&& table@[m].total == area_total(post, table@[m].name@)
                    });
                    lemma_table_parts(post, table@);
                    assert(is_area_table(post, table@));
                }
            }
            i += 1;
        }
        assert(self.files@.subrange(0, i as int) =~= self.files@);
        table
    }
}


/// A line break flattened to a blank.
pub open spec fn flat_char(c: char) -> char {
    if c == '\n' {
        ' '
    } else {
        c
    }
}

/// `text` on one line: every line break becomes a blank.
pub open spec fn flattened(text: Seq<char>) -> Seq<char> {
    text.map_values(|c: char| flat_char(c))
}

/// `text` on one line, cut to `max` characters and marked `...` when longer.
pub open spec fn truncated(text: Seq<char>, max: nat) -> Seq<char> {
    let flat = flattened(text);
    if flat.len() > max {
        flat.take(max as int) + "..."@
    } else {
        flat
    }
}

/// `text` on one line, and no longer than `max` characters plus the mark.
pub fn truncate(text: &str, max: usize) -> (r: String)
    ensures
        r@ == truncated(text@, max as nat),
{
    let cs = chars_of(text);
    let n = if cs.len() > max { max } else { cs.len() };
    let mut out = String::new();
    let mut i: usize = 0;
    while i < n
        invariant
            n <= cs.len(),
            i <= n,
            cs@ == text@,
            out@ == flattened(text@).take(i as int),
        decreases n - i,
    {
        let c = cs[i];
        push_char(&mut out, if c == '\n' { ' ' } else { c });
        i += 1;
        assert(out@ =~= flattened(text@).take(i as int));
    }
    if cs.len() > max {
        push_str(&mut out, "...");
    } else {
        assert(out@ =~= flattened(text@));
    }
    out
}


/// The width of the path column: the longest path in bytes, and at least 4.
pub open spec fn path_width(files: Seq<FileReport>) -> nat
    decreases files.len(),
{
    if files.len() == 0 {
        4
    } else {
        let w = path_width(files.drop_last());
        let l = encode_utf8(files.last().path@).len();
        if l > w {
            l
        } else {
            w
        }
    }
}

/// `passed/total`.
pub open spec fn score_text(passed: nat, total: nat) -> Seq<char> {
    decimal(passed) + "/"@ + decimal(total)
}

/// Why a file lost points: its own error, else its first failing test.
pub open spec fn note_of(f: FileReport) -> Seq<char> {
    match f.error {
        Some(e) => "file: "@ + e@,
        None => match first_failed(f.tests@) {
            Some(t) => t.name@ + ": "@ + t.error@,
            None => Seq::empty(),
        },
    }
}

/// The scoreboard line of one file.
pub open spec fn file_line(f: FileReport, width: nat) -> Seq<char> {
    padded(f.path@, width) + "  "@ + padded(score_text(count_passed(f.tests@), f.tests@.len()), 9)
        + "  "@ + truncated(note_of(f), 90) + "\n"@
}

/// The line of one failing test, under its file.
pub open spec fn failure_line(t: TestOutcome, width: nat) -> Seq<char> {
    spaces(width) + "    FAIL "@ + t.name@ + ": "@ + t.error@ + "\n"@
}

/// One line per failing test, in order.
pub open spec fn failure_lines(tests: Seq<TestOutcome>, width: nat) -> Seq<char>
    decreases tests.len(),
{
    if tests.len() == 0 {
        Seq::empty()
    } else {
        failure_lines(tests.drop_last(), width) + if tests.last().passed {
            Seq::empty()
        } else {
            failure_line(tests.last(), width)
        }
    }
}

/// A file's line, followed by its failures when `verbose`.
pub open spec fn file_block(f: FileReport, width: nat, verbose: bool) -> Seq<char> {
    file_line(f, width) + if verbose {
        failure_lines(f.tests@, width)
    } else {
        Seq::empty()
    }
}

/// The blocks of all files, in order.
pub open spec fn file_blocks(files: Seq<FileReport>, width: nat, verbose: bool) -> Seq<char>
    decreases files.len(),
{
    if files.len() == 0 {
        Seq::empty()
    } else {
        file_blocks(files.drop_last(), width, verbose) + file_block(files.last(), width, verbose)
    }
}

/// One line of the area table.
pub open spec fn area_line(name: Seq<char>, passed: nat, total: nat) -> Seq<char> {
    padded(name, 14) + "  "@ + padded(score_text(passed, total), 9) + "  "@ + percent_text(
        passed,
        total,
    ) + "\n"@
}

/// The lines of an area table, in order.
pub open spec fn area_lines(table: Seq<AreaScore>) -> Seq<char>
    decreases table.len(),
{
    if table.len() == 0 {
        Seq::empty()
    } else {
        area_lines(table.drop_last()) + area_line(
            table.last().name@,
            table.last().passed as nat,
            table.last().total as nat,
        )
    }
}

/// The scoreboard's heading, down to the rule above the file lines.
pub open spec fn heading(s: Suite) -> Seq<char> {
    let w = path_width(s.files@);
    "backend: "@ + s.backend@ + "\n"@ + "files:   "@ + decimal(s.files@.len()) + "\n"@ + "\n"@
        + padded("file"@, w) + "  score      first failure\n"@ + repeated('-', w + 60) + "\n"@
}

/// The area table and the total line that end the scoreboard.
pub open spec fn area_section(s: Suite, table: Seq<AreaScore>) -> Seq<char> {
    "\n"@ + padded("area"@, 14) + "  score      %\n"@ + repeated('-', 34) + "\n"@ + area_lines(table)
        + repeated('-', 34) + "\n"@ + area_line("TOTAL"@, s.passed as nat, s.total as nat)
}

/// The whole scoreboard, given its area table.
pub open spec fn rendered(s: Suite, verbose: bool, table: Seq<AreaScore>) -> Seq<char> {
    heading(s) + file_blocks(s.files@, path_width(s.files@), verbose) + area_section(s, table)
}

/// What `render` needs to stay inside machine integers.
pub open spec fn renderable(s: Suite) -> bool {
    &&& sum_total(s.files@) * 100 <= usize::MAX
    &&& s.passed * 100 <= usize::MAX
    &&& forall|k: int|
        0 <= k < s.files@.len() ==> encode_utf8(#[trigger] s.files@[k].path@).len() + 60
            <= usize::MAX
}

fn push_score(out: &mut String, passed: usize, total: usize)
    ensures
        final(out)@ == old(out)@ + padded(score_text(passed as nat, total as nat), 9),
{
    let mut score = String::new();
    push_decimal(&mut score, passed as u128);
    push_str(&mut score, "/");
    push_decimal(&mut score, total as u128);
    assert(score@ =~= score_text(passed as nat, total as nat));
    push_padded(out, score.as_str(), 9);
}

fn push_area_line(out: &mut String, name: &str, passed: usize, total: usize)
    requires
        passed * 100 <= usize::MAX,
    ensures
        final(out)@ == old(out)@ + area_line(name@, passed as nat, total as nat),
{
    let ghost start = out@;
    push_padded(out, name, 14);
    push_str(out, "  ");
    push_score(out, passed, total);
    push_str(out, "  ");
    let pct = percent(passed, total);
    push_str(out, pct.as_str());
    push_str(out, "\n");
    assert(out@ =~= start + area_line(name@, passed as nat, total as nat));
}

fn push_file_line(out: &mut String, f: &FileReport, width: usize)
    ensures
        final(out)@ == old(out)@ + file_line(*f, width as nat),
{
    let ghost start = out@;
    push_padded(out, f.path.as_str(), width);
    push_str(out, "  ");
    push_score(out, f.passed(), f.total());
    push_str(out, "  ");
    let mut note = String::new();
    match &f.error {
        Some(e) => {
            push_str(&mut note, "file: ");
            push_str(&mut note, e.as_str());
        },
        None => match f.first_failure() {
            Some(t) => {
                push_str(&mut note, t.name.as_str());
                push_str(&mut note, ": ");
                push_str(&mut note, t.error.as_str());
            },
            None => {},
        },
    }
    assert(note@ =~= note_of(*f));
    let cut = truncate(note.as_str(), 90);
    push_str(out, cut.as_str());
    push_str(out, "\n");
    assert(out@ =~= start + file_line(*f, width as nat));
}

fn push_failures(out: &mut String, tests: &Vec<TestOutcome>, width: usize)
    ensures
        final(out)@ == old(out)@ + failure_lines(tests@, width as nat),
{
    let ghost start = out@;
    let mut i: usize = 0;
    while i < tests.len()
        invariant
            i <= tests.len(),
            out@ == start + failure_lines(tests@.subrange(0, i as int), width as nat),
        decreases tests.len() - i,
    {
        let ghost before = out@;
        assert(tests@.subrange(0, i + 1).drop_last() =~= tests@.subrange(0, i as int));
        if !tests[i].passed {
            push_repeated(out, ' ', width);
            push_str(out, "    FAIL ");
            push_str(out, tests[i].name.as_str());
            push_str(out, ": ");
            push_str(out, tests[i].error.as_str());
            push_str(out, "\n");
            assert(repeated(' ', width as nat) =~= spaces(width as nat));
            assert(out@ =~= before + failure_line(tests@[i as int], width as nat));
        }
        i += 1;
        assert(out@ =~= start + failure_lines(tests@.subrange(0, i as int), width as nat));
    }
    assert(tests@.subrange(0, i as int) =~= tests@);
}

impl Suite {
    /// The scoreboard as text: one line per file, then one per area, then the total.
    #[verifier::rlimit(40)]
    pub fn render(&self, verbose: bool) -> (r: String)
        requires
            renderable(*self),
        ensures
            exists|table: Seq<AreaScore>|
                is_area_table(self.files@, table) && r@ == rendered(*self, verbose, table),
    {
        let mut width: usize = 4;
        let mut k: usize = 0;
        while k < self.files.len()
            invariant
                k <= self.files.len(),
                renderable(*self),
                width == path_width(self.files@.subrange(0, k as int)),
                width + 60 <= usize::MAX,
            decreases self.files.len() - k,
        {
            assert(self.files@.subrange(0, k + 1).drop_last() =~= self.files@.subrange(0, k as int));
            assert(encode_utf8(self.files@[k as int].path@).len() + 60 <= usize::MAX);
            let l = self.files[k].path.as_str().len();
            if l > width {
                width = l;
            }
            k += 1;
        }
        assert(self.files@.subrange(0, k as int) =~= self.files@);
        let ghost w = width as nat;

        let mut out = String::new();
        push_str(&mut out, "backend: ");
        push_str(&mut out, self.backend.as_str());
        push_str(&mut out, "\n");
        push_str(&mut out, "files:   ");
        push_decimal(&mut out, self.files.len() as u128);
        push_str(&mut out, "\n");
        push_str(&mut out, "\n");
        push_padded(&mut out, "file", width);
        push_str(&mut out, "  score      first failure\n");
        push_repeated(&mut out, '-', width + 60);
        push_str(&mut out, "\n");
        let ghost head = out@;

        let mut i: usize = 0;
        while i < self.files.len()
            invariant
                i <= self.files.len(),
                width == w,
                out@ == head + file_blocks(self.files@.subrange(0, i as int), w, verbose),
            decreases self.files.len() - i,
        {
            let ghost before = out@;
            assert(self.files@.subrange(0, i + 1).drop_last() =~= self.files@.subrange(0, i as int));
            push_file_line(&mut out, &self.files[i], width);
            if verbose {
                push_failures(&mut out, &self.files[i].tests, width);
            }
            i += 1;
            assert(out@ =~= head + file_blocks(self.files@.subrange(0, i as int), w, verbose));
        }
        assert(self.files@.subrange(0, i as int) =~= self.files@);

        push_str(&mut out, "\n");
        push_padded(&mut out, "area", 14);
        push_str(&mut out, "  score      %\n");
        push_repeated(&mut out, '-', 34);
        push_str(&mut out, "\n");
        let ghost middle = out@;

        let table = self.areas();
        let mut a: usize = 0;
        while a < table.len()
            invariant
                a <= table.len(),
                is_area_table(self.files@, table@),
                renderable(*self),
                out@ == middle + area_lines(table@.subrange(0, a as int)),
            decreases table.len() - a,
        {
            assert(table@.subrange(0, a + 1).drop_last() =~= table@.subrange(0, a as int));
            proof {
                lemma_sums_bounded(self.files@, table@[a as int].name@);
            }
            push_area_line(&mut out, table[a].name.as_str(), table[a].passed, table[a].total);
            a += 1;
            assert(out@ =~= middle + area_lines(table@.subrange(0, a as int)));
        }
        assert(table@.subrange(0, a as int) =~= table@);

        push_repeated(&mut out, '-', 34);
        push_str(&mut out, "\n");
        push_area_line(&mut out, "TOTAL", self.passed, self.total);
        assert(out@ =~= rendered(*self, verbose, table@));
        out
    }
}


/// No test passes in a list of failed tests.
pub proof fn lemma_none_passed(tests: Seq<TestOutcome>)
    requires
        forall|i: int| 0 <= i < tests.len() ==> !(#[trigger] tests[i]).passed,
    ensures
        count_passed(tests) == 0,
    decreases tests.len(),
{
    if tests.len() > 0 {
        assert(!tests[tests.len() - 1].passed);
        lemma_none_passed(tests.drop_last());
    }
}

/// The names of a table, in order.
pub open spec fn table_names(table: Seq<AreaScore>) -> Seq<Seq<char>> {
    table.map_values(|a: AreaScore| a.name@)
}

/// Strictly increasing names.
pub open spec fn strictly_sorted(names: Seq<Seq<char>>) -> bool {
    forall|i: int, j: int| 0 <= i < j < names.len() ==> text_lt(#[trigger] names[i], #[trigger] names[j])
}

proof fn lemma_text_lt_asymmetric(a: Seq<char>, b: Seq<char>)
    requires
        text_lt(a, b),
    ensures
        !text_le(b, a),
{
    if text_le(b, a) {
        lemma_text_le_antisymmetric(a, b);
    }
}

/// Two strictly sorted lists of the same names are the same list.
pub proof fn lemma_sorted_same_names(a: Seq<Seq<char>>, b: Seq<Seq<char>>)
    requires
        strictly_sorted(a),
        strictly_sorted(b),
        forall|x: Seq<char>| a.contains(x) <==> b.contains(x),
    ensures
        a == b,
    decreases a.len(),
{
    if a.len() == 0 {
        if b.len() > 0 {
            assert(b.contains(b[0]));
        }
        assert(a =~= b);
    } else {
        assert(a.contains(a[0]));
        let j = choose|j: int| 0 <= j < b.len() && b[j] == a[0];
        assert(b.contains(b[0]));
        let i = choose|i: int| 0 <= i < a.len() && a[i] == b[0];
        if j > 0 {
            assert(text_lt(b[0], b[j]));
            if i > 0 {
                assert(text_lt(a[0], a[i]));
                lemma_text_lt_asymmetric(a[0], b[0]);
            }
        }
        assert(a[0] == b[0]);
        let ta = a.drop_first();
        let tb = b.drop_first();
        assert forall|x: Seq<char>| ta.contains(x) <==> tb.contains(x) by {
            if ta.contains(x) {
                let k = choose|k: int| 0 <= k < ta.len() && ta[k] == x;
                assert(a[k + 1] == x);
                assert(text_lt(a[0], a[k + 1]));
                assert(b.contains(x));
                let m = choose|m: int| 0 <= m < b.len() && b[m] == x;
                assert(m != 0);
                assert(tb[m - 1] == x);
            }
            if tb.contains(x) {
                let k = choose|k: int| 0 <= k < tb.len() && tb[k] == x;
                assert(b[k + 1] == x);
                assert(text_lt(b[0], b[k + 1]));
                assert(a.contains(x));
                let m = choose|m: int| 0 <= m < a.len() && a[m] == x;
                assert(m != 0);
                assert(ta[m - 1] == x);
            }
        }
        assert(strictly_sorted(ta)) by {
            assert forall|p: int, q: int| 0 <= p < q < ta.len() implies text_lt(#[trigger] ta[p], #[trigger] ta[q]) by {
                assert(text_lt(a[p + 1], a[q + 1]));
            }
        }
        assert(strictly_sorted(tb)) by {
            assert forall|p: int, q: int| 0 <= p < q < tb.len() implies text_lt(#[trigger] tb[p], #[trigger] tb[q]) by {
                assert(text_lt(b[p + 1], b[q + 1]));
            }
        }
        lemma_sorted_same_names(ta, tb);
        assert(a =~= seq![a[0]] + ta);
        assert(b =~= seq![b[0]] + tb);
    }
}

/// The area table of a list of files is unique: any two tables of the same
/// files list the same areas in the same order with the same scores.
pub proof fn law_area_table_unique(files: Seq<FileReport>, t1: Seq<AreaScore>, t2: Seq<AreaScore>)
    requires
        is_area_table(files, t1),
        is_area_table(files, t2),
    ensures
        t1.len() == t2.len(),
        forall|i: int|
            0 <= i < t1.len() ==> {
                &&& #[trigger] t1[i].name@ == t2[i].name@
                &&& t1[i].passed == t2[i].passed
                &&& t1[i].total == t2[i].total
            },
{
    let a = table_names(t1);
    let b = table_names(t2);
    assert(strictly_sorted(a)) by {
        assert forall|p: int, q: int| 0 <= p < q < a.len() implies text_lt(#[trigger] a[p], #[trigger] a[q]) by {
            assert(text_lt(t1[p].name@, t1[q].name@));
        }
    }
    assert(strictly_sorted(b)) by {
        assert forall|p: int, q: int| 0 <= p < q < b.len() implies text_lt(#[trigger] b[p], #[trigger] b[q]) by {
            assert(text_lt(t2[p].name@, t2[q].name@));
        }
    }
    assert forall|x: Seq<char>| a.contains(x) <==> b.contains(x) by {
        if a.contains(x) {
            let k = choose|k: int| 0 <= k < a.len() && a[k] == x;
            assert(table_has(t1, x));
            assert(table_has(t2, x));
            let m = choose|m: int| 0 <= m < t2.len() && #[trigger] t2[m].name@ == x;
            assert(b[m] == x);
        }
        if b.contains(x) {
            let k = choose|k: int| 0 <= k < b.len() && b[k] == x;
            assert(table_has(t2, x));
            assert(table_has(t1, x));
            let m = choose|m: int| 0 <= m < t1.len() && #[trigger] t1[m].name@ == x;
            assert(a[m] == x);
        }
    }
    lemma_sorted_same_names(a, b);
    assert forall|i: int| 0 <= i < t1.len() implies {
        &&& #[trigger] t1[i].name@ == t2[i].name@
        &&& t1[i].passed == t2[i].passed
        &&& t1[i].total == t2[i].total
    } by {
        assert(a[i] == b[i]);
    }
}

/// The tests of the files filed under each of `names`, added up.
pub open spec fn names_total(files: Seq<FileReport>, names: Seq<Seq<char>>) -> nat
    decreases names.len(),
{
    if names.len() == 0 {
        0
    } else {
        names_total(files, names.drop_last()) + area_total(files, names.last())
    }
}

/// The passed tests of the files filed under each of `names`, added up.
pub open spec fn names_passed(files: Seq<FileReport>, names: Seq<Seq<char>>) -> nat
    decreases names.len(),
{
    if names.len() == 0 {
        0
    } else {
        names_passed(files, names.drop_last()) + area_passed(files, names.last())
    }
}

/// How many of `names` are `x`.
pub open spec fn hits(names: Seq<Seq<char>>, x: Seq<char>) -> nat
    decreases names.len(),
{
    if names.len() == 0 {
        0
    } else {
        hits(names.drop_last(), x) + if names.last() == x {
            1nat
        } else {
            0nat
        }
    }
}

/// No name twice.
pub open spec fn distinct(names: Seq<Seq<char>>) -> bool {
    forall|i: int, j: int| 0 <= i < j < names.len() ==> names[i] != names[j]
}

/// A name occurs once in a list without repeats when it occurs at all.
pub proof fn lemma_hits_distinct(names: Seq<Seq<char>>, x: Seq<char>)
    requires
        distinct(names),
    ensures
        hits(names, x) == if names.contains(x) {
            1nat
        } else {
            0nat
        },
    decreases names.len(),
{
    if names.len() > 0 {
        let pre = names.drop_last();
        assert(distinct(pre)) by {
            assert forall|i: int, j: int| 0 <= i < j < pre.len() implies pre[i] != pre[j] by {
                assert(names[i] != names[j]);
            }
        }
        lemma_hits_distinct(pre, x);
        if pre.contains(x) {
            let k = choose|k: int| 0 <= k < pre.len() && pre[k] == x;
            assert(names[k] == x);
            assert(names[names.len() - 1] != names[k]);
        }
        if names.contains(x) && !pre.contains(x) {
            let k = choose|k: int| 0 <= k < names.len() && names[k] == x;
            if k < pre.len() {
                assert(pre[k] == x);
            }
        }
        if pre.contains(x) {
            let k = choose|k: int| 0 <= k < pre.len() && pre[k] == x;
            assert(names[k] == x);
        }
        if names.last() == x {
            assert(names[names.len() - 1] == x);
        }
    }
}

proof fn lemma_names_sums_push(pre: Seq<FileReport>, f: FileReport, names: Seq<Seq<char>>)
    ensures
        names_total(pre.push(f), names) == names_total(pre, names) + hits(names, f.area@) * f.tests@.len(),
        names_passed(pre.push(f), names) == names_passed(pre, names) + hits(names, f.area@) * count_passed(f.tests@),
    decreases names.len(),
{
    lemma_push_file(pre, f);
    if names.len() > 0 {
        let rest = names.drop_last();
        lemma_names_sums_push(pre, f, rest);
        let h = hits(rest, f.area@);
        let e: nat = if names.last() == f.area@ { 1 } else { 0 };
        let n = f.tests@.len();
        let p = count_passed(f.tests@);
        assert(hits(names, f.area@) == h + e);
        assert((h + e) * n == h * n + e * n) by (nonlinear_arith);
        assert((h + e) * p == h * p + e * p) by (nonlinear_arith);
        assert(e * n == if f.area@ == names.last() { n } else { 0 });
        assert(e * p == if f.area@ == names.last() { p } else { 0 });
        assert(area_total(pre.push(f), names.last()) == area_total(pre, names.last()) + if f.area@ == names.last() {
            n
        } else {
            0
        });
        assert(area_passed(pre.push(f), names.last()) == area_passed(pre, names.last()) + if f.area@ == names.last() {
            p
        } else {
            0
        });
        assert(names_total(pre.push(f), names) == names_total(pre.push(f), rest) + area_total(pre.push(f), names.last()));
        assert(names_total(pre, names) == names_total(pre, rest) + area_total(pre, names.last()));
    } else {
        assert(hits(names, f.area@) == 0);
        assert(0 * f.tests@.len() == 0);
        assert(0 * count_passed(f.tests@) == 0);
    }
}

/// Over a list of areas without repeats that covers every file, the area
/// sums add up to the sums over all files.
proof fn lemma_names_cover(files: Seq<FileReport>, names: Seq<Seq<char>>)
    requires
        distinct(names),
        forall|k: int| 0 <= k < files.len() ==> names.contains(#[trigger] files[k].area@),
    ensures
        names_total(files, names) == sum_total(files),
        names_passed(files, names) == sum_passed(files),
    decreases files.len(),
{
    if files.len() == 0 {
        lemma_names_empty_files(files, names);
    } else {
        let pre = files.drop_last();
        let f = files.last();
        assert(files =~= pre.push(f));
        assert forall|k: int| 0 <= k < pre.len() implies names.contains(#[trigger] pre[k].area@) by {
            assert(files[k] == pre[k]);
        }
        lemma_names_cover(pre, names);
        lemma_names_sums_push(pre, f, names);
        assert(names.contains(files[files.len() - 1].area@));
        lemma_hits_distinct(names, f.area@);
        lemma_push_file(pre, f);
        assert(hits(names, f.area@) == 1);
        assert(1 * f.tests@.len() == f.tests@.len());
        assert(1 * count_passed(f.tests@) == count_passed(f.tests@));
    }
}

proof fn lemma_names_empty_files(files: Seq<FileReport>, names: Seq<Seq<char>>)
    requires
        files.len() == 0,
    ensures
        names_total(files, names) == 0,
        names_passed(files, names) == 0,
    decreases names.len(),
{
    if names.len() > 0 {
        lemma_names_empty_files(files, names.drop_last());
    }
}

/// The tests the table counts, added up.
pub open spec fn table_total(table: Seq<AreaScore>) -> nat
    decreases table.len(),
{
    if table.len() == 0 {
        0
    } else {
        table_total(table.drop_last()) + table.last().total as nat
    }
}

/// The passed tests the table counts, added up.
pub open spec fn table_passed(table: Seq<AreaScore>) -> nat
    decreases table.len(),
{
    if table.len() == 0 {
        0
    } else {
        table_passed(table.drop_last()) + table.last().passed as nat
    }
}

proof fn lemma_table_sums(files: Seq<FileReport>, table: Seq<AreaScore>)
    requires
        forall|i: int|
            0 <= i < table.len() ==> {
                &&& #[trigger] table[i].passed == area_passed(files, table[i].name@)
                &&& table[i].total == area_total(files, table[i].name@)
            },
    ensures
        table_total(table) == names_total(files, table_names(table)),
        table_passed(table) == names_passed(files, table_names(table)),
    decreases table.len(),
{
    if table.len() > 0 {
        let pre = table.drop_last();
        assert forall|i: int| 0 <= i < pre.len() implies {
            &&& #[trigger] pre[i].passed == area_passed(files, pre[i].name@)
            &&& pre[i].total == area_total(files, pre[i].name@)
        } by {
            assert(pre[i] == table[i]);
        }
        lemma_table_sums(files, pre);
        assert(table_names(table).drop_last() =~= table_names(pre));
        assert(table[table.len() - 1].passed == area_passed(files, table.last().name@));
    }
}

/// The area lines add up to the total line: over an area table, the tests
/// and the passed tests of the areas sum to those of all files.
pub proof fn law_areas_add_up(files: Seq<FileReport>, table: Seq<AreaScore>)
    requires
        is_area_table(files, table),
    ensures
        table_total(table) == sum_total(files),
        table_passed(table) == sum_passed(files),
{
    let names = table_names(table);
    assert(distinct(names)) by {
        assert forall|i: int, j: int| 0 <= i < j < names.len() implies names[i] != names[j] by {
            assert(text_lt(table[i].name@, table[j].name@));
        }
    }
    assert forall|k: int| 0 <= k < files.len() implies names.contains(#[trigger] files[k].area@) by {
        assert(names_area(files, files[k].area@));
        assert(table_has(table, files[k].area@));
        let m = choose|m: int| 0 <= m < table.len() && #[trigger] table[m].name@ == files[k].area@;
        assert(names[m] == files[k].area@);
    }
    lemma_names_cover(files, names);
    lemma_table_sums(files, table);
}

/// A suite never passes more tests than it counts, nor an area more than
/// its files count.
pub proof fn law_passed_within_total(files: Seq<FileReport>, area: Seq<char>)
    ensures
        sum_passed(files) <= sum_total(files),
        area_passed(files, area) <= area_total(files, area),
{
    lemma_sums_bounded(files, area);
}

/// A percentage of passed tests among at least as many is at most 100.
pub proof fn law_percent_at_most_whole(passed: nat, total: nat)
    requires
        passed <= total,
        total > 0,
    ensures
        passed * 100 / total <= 100,
{
    assert(passed * 100 <= total * 100) by (nonlinear_arith)
        requires
            passed <= total,
    ;
    assert(passed * 100 / total <= 100) by (nonlinear_arith)
        requires
            passed * 100 <= total * 100,
            total > 0,
    ;
}

/// A truncated note fits on one line and in its field: no line breaks, and
/// at most `max` characters plus the three dots.
pub proof fn law_truncated_one_line(text: Seq<char>, max: nat)
    ensures
        !truncated(text, max).contains('\n'),
        truncated(text, max).len() <= max + 3,
{
    reveal_strlit("...");
    let flat = flattened(text);
    assert forall|i: int| 0 <= i < flat.len() implies flat[i] != '\n' by {
        assert(flat[i] == flat_char(text[i]));
    }
    if flat.len() > max {
        let r = flat.take(max as int) + "..."@;
        assert forall|i: int| 0 <= i < r.len() implies r[i] != '\n' by {
            if i < max {
                assert(r[i] == flat[i]);
            } else {
                assert(r[i] == "..."@[i - max]);
            }
        }
    }
}

/// How many line breaks `x` holds.
pub open spec fn newlines(x: Seq<char>) -> nat
    decreases x.len(),
{
    if x.len() == 0 {
        0
    } else {
        newlines(x.drop_last()) + if x.last() == '\n' {
            1nat
        } else {
            0nat
        }
    }
}

proof fn lemma_newlines_concat(a: Seq<char>, b: Seq<char>)
    ensures
        newlines(a + b) == newlines(a) + newlines(b),
    decreases b.len(),
{
    if b.len() > 0 {
        lemma_newlines_concat(a, b.drop_last());
        assert((a + b).drop_last() =~= a + b.drop_last());
        assert((a + b).last() == b.last());
    } else {
        assert(a + b =~= a);
    }
}

proof fn lemma_newlines_none(x: Seq<char>)
    requires
        !x.contains('\n'),
    ensures
        newlines(x) == 0,
    decreases x.len(),
{
    if x.len() > 0 {
        assert(x[x.len() - 1] != '\n');
        assert forall|i: int| 0 <= i < x.drop_last().len() implies x.drop_last()[i] != '\n' by {
            assert(x[i] != '\n');
        }
        lemma_newlines_none(x.drop_last());
    }
}

/// No name and no error of a test holds a line break.
pub open spec fn single_line_tests(files: Seq<FileReport>) -> bool {
    forall|k: int, i: int|
        0 <= k < files.len() && 0 <= i < files[k].tests@.len() ==> {
            &&& !(#[trigger] files[k].tests@[i]).name@.contains('\n')
            &&& !files[k].tests@[i].error@.contains('\n')
        }
}

/// How many tests of `tests` failed.
pub open spec fn failed_count(tests: Seq<TestOutcome>) -> nat
    decreases tests.len(),
{
    if tests.len() == 0 {
        0
    } else {
        failed_count(tests.drop_last()) + if tests.last().passed {
            0nat
        } else {
            1nat
        }
    }
}

/// How many tests of all `files` failed.
pub open spec fn failures(files: Seq<FileReport>) -> nat
    decreases files.len(),
{
    if files.len() == 0 {
        0
    } else {
        failures(files.drop_last()) + failed_count(files.last().tests@)
    }
}

proof fn lemma_failure_lines_count(tests: Seq<TestOutcome>, width: nat)
    requires
        forall|i: int|
            0 <= i < tests.len() ==> !(#[trigger] tests[i]).name@.contains('\n') && !tests[i].error@.contains(
                '\n',
            ),
    ensures
        newlines(failure_lines(tests, width)) == failed_count(tests),
    decreases tests.len(),
{
    if tests.len() > 0 {
        let pre = tests.drop_last();
        assert forall|i: int| 0 <= i < pre.len() implies !(#[trigger] pre[i]).name@.contains('\n')
            && !pre[i].error@.contains('\n') by {
            assert(pre[i] == tests[i]);
        }
        lemma_failure_lines_count(pre, width);
        let t = tests.last();
        assert(!tests[tests.len() - 1].name@.contains('\n'));
        if !t.passed {
            reveal_strlit("    FAIL ");
            reveal_strlit(": ");
            reveal_strlit("\n");
            let head = spaces(width) + "    FAIL "@ + t.name@ + ": "@ + t.error@;
            assert(!head.contains('\n')) by {
                assert forall|i: int| 0 <= i < head.len() implies head[i] != '\n' by {
                    let a = spaces(width).len();
                    let b = a + 9;
                    let c = b + t.name@.len();
                    let d = c + 2;
                    if i < a {
                    } else if i < b {
                        assert(head[i] == "    FAIL "@[i - a]);
                    } else if i < c {
                        assert(head[i] == t.name@[i - b]);
                    } else if i < d {
                        assert(head[i] == ": "@[i - c]);
                    } else {
                        assert(head[i] == t.error@[i - d]);
                    }
                }
            }
            lemma_newlines_none(head);
            assert(failure_line(t, width) =~= head + "\n"@);
            lemma_newlines_concat(head, "\n"@);
            assert(newlines("\n"@) == 1) by {
                reveal_strlit("\n");
                assert("\n"@.len() == 1);
                assert("\n"@.drop_last() =~= Seq::<char>::empty());
                assert(newlines(Seq::<char>::empty()) == 0);
                assert("\n"@.last() == '\n');
            }
            lemma_newlines_concat(failure_lines(pre, width), failure_line(t, width));
        } else {
            assert(failure_lines(tests, width) =~= failure_lines(pre, width) + Seq::<char>::empty());
        }
    }
}

proof fn lemma_file_blocks_count(files: Seq<FileReport>, width: nat)
    requires
        single_line_tests(files),
    ensures
        newlines(file_blocks(files, width, true)) == newlines(file_blocks(files, width, false)) + failures(files),
    decreases files.len(),
{
    if files.len() > 0 {
        let pre = files.drop_last();
        let f = files.last();
        assert(single_line_tests(pre)) by {
            assert forall|k: int, i: int| 0 <= k < pre.len() && 0 <= i < pre[k].tests@.len() implies {
                &&& !(#[trigger] pre[k].tests@[i]).name@.contains('\n')
                &&& !pre[k].tests@[i].error@.contains('\n')
            } by {
                assert(pre[k] == files[k]);
                assert(!files[k].tests@[i].name@.contains('\n'));
            }
        }
        lemma_file_blocks_count(pre, width);
        assert forall|i: int| 0 <= i < f.tests@.len() implies !(#[trigger] f.tests@[i]).name@.contains('\n')
            && !f.tests@[i].error@.contains('\n') by {
            assert(!files[files.len() - 1].tests@[i].name@.contains('\n'));
        }
        lemma_failure_lines_count(f.tests@, width);
        lemma_newlines_concat(file_line(f, width), failure_lines(f.tests@, width));
        assert(file_block(f, width, false) =~= file_line(f, width));
        lemma_newlines_concat(file_blocks(pre, width, true), file_block(f, width, true));
        lemma_newlines_concat(file_blocks(pre, width, false), file_block(f, width, false));
    }
}

/// `--verbose` only adds lines: one line per failing test, and nothing else,
/// so the verbose scoreboard has as many more lines as the suite has
/// failures, when no test name or error breaks a line itself.
pub proof fn law_verbose_adds_one_line_per_failure(s: Suite, table: Seq<AreaScore>)
    requires
        single_line_tests(s.files@),
    ensures
        newlines(rendered(s, true, table)) == newlines(rendered(s, false, table)) + failures(s.files@),
{
    let w = path_width(s.files@);
    let head = heading(s);
    let tail = area_section(s, table);
    lemma_file_blocks_count(s.files@, w);
    lemma_newlines_concat(head, file_blocks(s.files@, w, true));
    lemma_newlines_concat(head + file_blocks(s.files@, w, true), tail);
    lemma_newlines_concat(head, file_blocks(s.files@, w, false));
    lemma_newlines_concat(head + file_blocks(s.files@, w, false), tail);
}

proof fn lemma_index_of_facts(x: Seq<char>, c: char)
    ensures
        crate::text::index_of(x, c) <= x.len(),
        crate::text::index_of(x, c) < x.len() ==> x[crate::text::index_of(x, c) as int] == c,
        forall|k: int| 0 <= k < crate::text::index_of(x, c) ==> x[k] != c,
    decreases x.len(),
{
    if x.len() > 0 && x[0] != c {
        lemma_index_of_facts(x.drop_first(), c);
        assert forall|k: int| 0 <= k < crate::text::index_of(x, c) implies x[k] != c by {
            if k > 0 {
                assert(x[k] == x.drop_first()[k - 1]);
            }
        }
    }
}

/// Text that is empty or ends with a line break has one line, as
/// `str::lines` counts them, per line break.
proof fn lemma_lines_count(x: Seq<char>)
    requires
        x.len() == 0 || x.last() == '\n',
    ensures
        crate::text::lines(x).len() == newlines(x),
    decreases x.len(),
{
    if x.len() > 0 {
        let e = crate::text::index_of(x, '\n');
        lemma_index_of_facts(x, '\n');
        if e >= x.len() {
            assert(x[x.len() - 1] != '\n');
        }
        let head = x.take(e as int);
        let rest = x.skip(e + 1int);
        if rest.len() > 0 {
            assert(rest.last() == x.last());
        }
        lemma_lines_count(rest);
        assert(!head.contains('\n')) by {
            assert forall|k: int| 0 <= k < head.len() implies head[k] != '\n' by {
                assert(head[k] == x[k]);
            }
        }
        lemma_newlines_none(head);
        assert(x =~= head + seq!['\n'] + rest);
        lemma_newlines_concat(head, seq!['\n']);
        lemma_newlines_concat(head + seq!['\n'], rest);
        assert(newlines(seq!['\n']) == 1) by {
            assert(seq!['\n'].drop_last() =~= Seq::<char>::empty());
            assert(newlines(Seq::<char>::empty()) == 0);
        }
    }
}

/// The scoreboard ends with a line break.
proof fn lemma_rendered_ends_a_line(s: Suite, verbose: bool, table: Seq<AreaScore>)
    ensures
        rendered(s, verbose, table).len() > 0,
        rendered(s, verbose, table).last() == '\n',
{
    reveal_strlit("\n");
    let total = area_line("TOTAL"@, s.passed as nat, s.total as nat);
    assert(total.last() == '\n');
    assert(area_section(s, table).last() == '\n');
}

/// The same law in lines, as `str::lines` counts them: the verbose
/// scoreboard has one more line per failing test than the plain one.
pub proof fn law_verbose_lines(s: Suite, table: Seq<AreaScore>)
    requires
        single_line_tests(s.files@),
    ensures
        crate::text::lines(rendered(s, true, table)).len() == crate::text::lines(rendered(s, false, table)).len()
            + failures(s.files@),
{
    law_verbose_adds_one_line_per_failure(s, table);
    lemma_rendered_ends_a_line(s, true, table);
    lemma_rendered_ends_a_line(s, false, table);
    lemma_lines_count(rendered(s, true, table));
    lemma_lines_count(rendered(s, false, table));
}

/// The passed tests are counted by `count_passed`: as many as pass.
proof fn lemma_count_passed_is_passing(tests: Seq<TestOutcome>)
    ensures
        count_passed(tests) == tests.filter(|t: TestOutcome| t.passed).len(),
    decreases tests.len(),
{
    reveal(Seq::filter);
    if tests.len() > 0 {
        lemma_count_passed_is_passing(tests.drop_last());
    }
}

/// A file's line shows, after its path and two spaces, how many of its tests
/// passed over how many it has.
pub proof fn law_file_line_shows_passed_over_total(f: FileReport, width: nat)
    ensures
        ({
            let at = padded(f.path@, width).len() + 2;
            let score = decimal(f.tests@.filter(|t: TestOutcome| t.passed).len()) + "/"@ + decimal(
                f.tests@.len(),
            );
            file_line(f, width).subrange(at as int, (at + score.len()) as int) == score
        }),
{
    reveal_strlit("  ");
    lemma_count_passed_is_passing(f.tests@);
    let a = padded(f.path@, width);
    let score = decimal(f.tests@.filter(|t: TestOutcome| t.passed).len()) + "/"@ + decimal(f.tests@.len());
    let shown = padded(score_text(count_passed(f.tests@), f.tests@.len()), 9);
    assert(score == score_text(count_passed(f.tests@), f.tests@.len()));
    let line = file_line(f, width);
    let at = a.len() + 2;
    assert forall|i: int| 0 <= i < score.len() implies #[trigger] line[at + i] == score[i] by {
        assert(shown[i] == score[i]);
    }
    assert(line.subrange(at as int, (at + score.len()) as int) =~= score);
}

/// The scores of an area's files add up to the area's line: its passed and
/// total tests are those of the files filed under it, summed.
pub proof fn law_area_sums_its_files(files: Seq<FileReport>, area: Seq<char>)
    ensures
        area_passed(files, area) == sum_passed(files.filter(|g: FileReport| g.area@ == area)),
        area_total(files, area) == sum_total(files.filter(|g: FileReport| g.area@ == area)),
    decreases files.len(),
{
    reveal(Seq::filter);
    if files.len() > 0 {
        law_area_sums_its_files(files.drop_last(), area);
        let pre = files.drop_last().filter(|g: FileReport| g.area@ == area);
        if files.last().area@ == area {
            assert(pre.push(files.last()).drop_last() =~= pre);
        }
    }
}

} // verus!
