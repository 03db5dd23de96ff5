//! The results of a run: the result of each test from its assertions, the
//! lines printed for the groups, and the counts of passed and failed tests.

use vstd::prelude::*;
use crate::error::WurlError;
use crate::text::{decimal, push_str, u64_to_decimal};

verus! {

/// The result of one test: passed, or the failure message of each failing
/// assertion.
pub struct TestResult {
    pub name: String,
    pub passed: bool,
    pub failures: Vec<String>,
}

pub struct GroupResult {
    pub name: String,
    pub tests: Vec<TestResult>,
}

/// The lines printed for a run and its counts.
pub struct Report {
    pub lines: Vec<String>,
    pub passed: usize,
    pub failed: usize,
}

/// The messages of the failed results, in order.
pub open spec fn errors_of(rs: Seq<Result<(), String>>) -> Seq<Seq<char>>
    decreases rs.len(),
{
    if rs.len() == 0 {
        seq![]
    } else {
        let pre = errors_of(rs.drop_last());
        match rs.last() {
            Ok(()) => pre,
            Err(e) => pre.push(e@),
        }
    }
}

pub open spec fn texts(v: Seq<String>) -> Seq<Seq<char>> {
    v.map_values(|s: String| s@)
}

/// The result of a test from the results of its assertions: every failing
/// assertion is reported, in the order of the assertions, and the test
/// passes exactly when none fails.
pub fn test_result(name: String, results: &Vec<Result<(), String>>) -> (t: TestResult)
    ensures
        t.name@ == name@,
        texts(t.failures@) == errors_of(results@),
        t.passed == (errors_of(results@).len() == 0),
{
    let mut failures: Vec<String> = Vec::new();
    let mut i: usize = 0;
    while i < results.len()
        invariant
            i <= results.len(),
            texts(failures@) == errors_of(results@.take(i as int)),
        decreases results.len() - i,
    {
        assert(results@.take(i + 1).drop_last() =~= results@.take(i as int));
        assert(results@.take(i + 1).last() == results@[i as int]);
        match &results[i] {
            Ok(()) => {},
            Err(e) => {
                let ghost before = texts(failures@);
                failures.push(e.clone());
                assert(texts(failures@) =~= before.push(e@));
            },
        }
        i += 1;
    }
    assert(results@.take(results.len() as int) =~= results@);
    let passed = failures.len() == 0;
    TestResult { name, passed, failures }
}

/// The result of a test that failed before its assertions were checked.
pub fn failed_test(name: String, message: String) -> (t: TestResult)
    ensures
        t.name@ == name@,
        texts(t.failures@) == seq![message@],
        !t.passed,
{
    let mut failures: Vec<String> = Vec::new();
    failures.push(message);
    assert(texts(failures@) =~= seq![failures@[0]@]);
    TestResult { name, passed: false, failures }
}

/// The lines printed for one test.
pub open spec fn test_lines(t: TestResult) -> Seq<Seq<char>> {
    if t.passed {
        seq!["  ✓  "@ + t.name@]
    } else {
        seq!["  ✗  "@ + t.name@] + t.failures@.map_values(|m: String| "       "@ + m@)
    }
}

pub open spec fn tests_lines(ts: Seq<TestResult>) -> Seq<Seq<char>>
    decreases ts.len(),
{
    if ts.len() == 0 {
        seq![]
    } else {
        tests_lines(ts.drop_last()) + test_lines(ts.last())
    }
}

pub open spec fn group_lines(g: GroupResult) -> Seq<Seq<char>> {
    seq!["\ngroup "@ + g.name@] + tests_lines(g.tests@)
}

pub open spec fn groups_lines(gs: Seq<GroupResult>) -> Seq<Seq<char>>
    decreases gs.len(),
{
    if gs.len() == 0 {
        seq![]
    } else {
        groups_lines(gs.drop_last()) + group_lines(gs.last())
    }
}

pub open spec fn passed_in(ts: Seq<TestResult>) -> nat
    decreases ts.len(),
{
    if ts.len() == 0 {
        0
    } else {
        passed_in(ts.drop_last()) + if ts.last().passed {
            1nat
        } else {
            0nat
        }
    }
}

pub open spec fn total_tests(gs: Seq<GroupResult>) -> nat
    decreases gs.len(),
{
    if gs.len() == 0 {
        0
    } else {
        total_tests(gs.drop_last()) + gs.last().tests@.len()
    }
}

pub open spec fn total_passed(gs: Seq<GroupResult>) -> nat
    decreases gs.len(),
{
    if gs.len() == 0 {
        0
    } else {
        total_passed(gs.drop_last()) + passed_in(gs.last().tests@)
    }
}

pub open spec fn summary_line(passed: nat, failed: nat) -> Seq<char> {
    "\n"@ + decimal(passed) + " passed, "@ + decimal(failed) + " failed"@
}

pub proof fn lemma_passed_le(ts: Seq<TestResult>)
    ensures
        passed_in(ts) <= ts.len(),
    decreases ts.len(),
{
    if ts.len() > 0 {
        lemma_passed_le(ts.drop_last());
    }
}

pub proof fn lemma_total_passed_le(gs: Seq<GroupResult>)
    ensures
        total_passed(gs) <= total_tests(gs),
    decreases gs.len(),
{
    if gs.len() > 0 {
        lemma_total_passed_le(gs.drop_last());
        lemma_passed_le(gs.last().tests@);
    }
}

fn prefixed(p: &str, s: &str) -> (r: String)
    ensures
        r@ == p@ + s@,
{
    let mut r = String::from_str(p);
    push_str(&mut r, s);
    r
}

pub open spec fn lines_of(v: Seq<String>) -> Seq<Seq<char>> {
    v.map_values(|s: String| s@)
}

/// Appends the lines of one test; returns whether it passed.
fn push_test_lines(lines: &mut Vec<String>, t: &TestResult)
    ensures
        lines_of(final(lines)@) == lines_of(old(lines)@) + test_lines(*t),
{
    let ghost start = lines_of(lines@);
    if t.passed {
        lines.push(prefixed("  ✓  ", t.name.as_str()));
        assert(lines_of(lines@) =~= start + test_lines(*t));
    } else {
        lines.push(prefixed("  ✗  ", t.name.as_str()));
        let ghost head = lines_of(lines@);
        let mut k: usize = 0;
        while k < t.failures.len()
            invariant
                k <= t.failures.len(),
                lines_of(lines@) == head + t.failures@.take(k as int).map_values(
                    |m: String| "       "@ + m@,
                ),
            decreases t.failures.len() - k,
        {
            let ghost before = lines_of(lines@);
            lines.push(prefixed("       ", t.failures[k].as_str()));
            assert(lines_of(lines@) =~= before.push("       "@ + t.failures@[k as int]@));
            assert(t.failures@.take(k + 1).map_values(|m: String| "       "@ + m@) =~= t.failures@.take(
                k as int,
            ).map_values(|m: String| "       "@ + m@).push("       "@ + t.failures@[k as int]@));
            k += 1;
        }
        assert(t.failures@.take(t.failures.len() as int) =~= t.failures@);
        assert(lines_of(lines@) =~= start + test_lines(*t));
    }
}

/// The report of a run: for each group its name and then each test, marked
/// passed or failed with its failure messages; last, the counts.
pub fn report(groups: &Vec<GroupResult>) -> (r: Report)
    requires
        total_tests(groups@) <= usize::MAX,
    ensures
        r.passed == total_passed(groups@),
        r.failed == total_tests(groups@) - total_passed(groups@),
        lines_of(r.lines@) == groups_lines(groups@).push(
            summary_line(r.passed as nat, r.failed as nat),
        ),
{
    let mut lines: Vec<String> = Vec::new();
    let mut total: usize = 0;
    let mut passed: usize = 0;
    let mut g: usize = 0;
    while g < groups.len()
        invariant
            g <= groups.len(),
            total_tests(groups@) <= usize::MAX,
            total == total_tests(groups@.take(g as int)),
            passed == total_passed(groups@.take(g as int)),
            lines_of(lines@) == groups_lines(groups@.take(g as int)),
        decreases groups.len() - g,
    {
        let ghost gs = groups@.take(g + 1);
        assert(gs.drop_last() =~= groups@.take(g as int));
        assert(gs.last() == groups@[g as int]);
        proof {
            lemma_total_prefix(groups@, g + 1);
        }
        let grp = &groups[g];
        let ghost glines = lines_of(lines@);
        lines.push(prefixed("\ngroup ", grp.name.as_str()));
        let ghost head = lines_of(lines@);
        let ghost tb = total_tests(groups@.take(g as int));
        proof {
            lemma_total_passed_le(groups@.take(g as int));
        }
        let mut t: usize = 0;
        while t < grp.tests.len()
            invariant
                t <= grp.tests.len(),
                g < groups.len(),
                grp == &groups@[g as int],
                tb + grp.tests@.len() <= usize::MAX,
                tb == total_tests(groups@.take(g as int)),
                total_passed(groups@.take(g as int)) <= tb,
                total == tb + t,
                passed == total_passed(groups@.take(g as int)) + passed_in(grp.tests@.take(t as int)),
                lines_of(lines@) == head + tests_lines(grp.tests@.take(t as int)),
            decreases grp.tests.len() - t,
        {
            let ghost ts = grp.tests@.take(t + 1);
            assert(ts.drop_last() =~= grp.tests@.take(t as int));
            assert(ts.last() == grp.tests@[t as int]);
            proof {
                lemma_passed_le(grp.tests@.take(t as int));
                assert(groups@.take(g + 1).drop_last() =~= groups@.take(g as int));
            }
            push_test_lines(&mut lines, &grp.tests[t]);
            total += 1;
            if grp.tests[t].passed {
                passed += 1;
            }
            t += 1;
        }
        assert(grp.tests@.take(grp.tests.len() as int) =~= grp.tests@);
        assert(lines_of(lines@) =~= glines + group_lines(groups@[g as int]));
        g += 1;
    }
    assert(groups@.take(groups.len() as int) =~= groups@);
    proof {
        lemma_total_passed_le(groups@);
    }
    let failed = total - passed;
    let mut last = String::from_str("\n");
    let p = u64_to_decimal(passed as u64);
    push_str(&mut last, p.as_str());
    push_str(&mut last, " passed, ");
    let f = u64_to_decimal(failed as u64);
    push_str(&mut last, f.as_str());
    push_str(&mut last, " failed");
    let ghost before = lines_of(lines@);
    lines.push(last);
    assert(lines_of(lines@) =~= before.push(summary_line(passed as nat, failed as nat)));
    Report { lines, passed, failed }
}

proof fn lemma_total_prefix(gs: Seq<GroupResult>, k: int)
    requires
        0 <= k <= gs.len(),
    ensures
        total_tests(gs.take(k)) <= total_tests(gs),
    decreases gs.len() - k,
{
    if k < gs.len() {
        lemma_total_prefix(gs, k + 1);
        assert(gs.take(k + 1).drop_last() =~= gs.take(k));
    } else {
        assert(gs.take(k) =~= gs);
    }
}

/// A run succeeds when no test failed; else it fails with the number of
/// failed tests.
pub fn run_result(r: &Report) -> (res: Result<(), WurlError>)
    ensures
        r.failed == 0 ==> res is Ok,
        r.failed > 0 ==> (res matches Err(WurlError::TestsFailed(n)) && n == r.failed),
{
    if r.failed > 0 {
        Err(WurlError::TestsFailed(r.failed))
    } else {
        Ok(())
    }
}

/// The number of tests in the groups, or `None` when it does not fit in a
/// `usize`.
pub fn total_tests_exec(groups: &Vec<GroupResult>) -> (r: Option<usize>)
    ensures
        match r {
            Some(n) => n == total_tests(groups@),
            None => total_tests(groups@) > usize::MAX,
        },
{
    let mut total: usize = 0;
    let mut g: usize = 0;
    while g < groups.len()
        invariant
            g <= groups.len(),
            total == total_tests(groups@.take(g as int)),
        decreases groups.len() - g,
    {
        assert(groups@.take(g + 1).drop_last() =~= groups@.take(g as int));
        assert(groups@.take(g + 1).last() == groups@[g as int]);
        match total.checked_add(groups[g].tests.len()) {
            Some(t) => {
                total = t;
            },
            None => {
                proof {
                    lemma_total_prefix(groups@, g + 1);
                }
                return None;
            },
        }
        g += 1;
    }
    assert(groups@.take(groups.len() as int) =~= groups@);
    Some(total)
}

} // verus!
