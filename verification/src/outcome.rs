//! Per-package test outcomes and the two-run comparison classifier.

use vstd::prelude::*;
use vstd::string::StringExecFns;

verus! {

/// Raw result of one run of one package under one toolchain.
#[derive(Structural, PartialEq, Eq, Copy, Clone, Debug)]
pub enum TestResult {
    BuildFail,
    TestFail,
    TestSkipped,
    TestPass,
}

/// Classification of a (baseline, candidate) pair of outcomes.
#[derive(Structural, PartialEq, Eq, Copy, Clone, Debug)]
pub enum Comparison {
    Regressed,
    Fixed,
    Skipped,
    Unknown,
    SameBuildFail,
    SameTestFail,
    SameTestSkipped,
    SameTestPass,
}

/// Error for the outcome pairs the classifier refuses to order: it names the
/// two outcomes involved.
#[derive(Structural, PartialEq, Eq, Copy, Clone, Debug)]
pub struct CompareError {
    pub baseline: TestResult,
    pub candidate: TestResult,
}

/// The pairs with no defined ordering: `TestSkipped` crossed with `TestFail`
/// or `TestPass`, in either direction.
pub open spec fn fatal_pair(baseline: TestResult, candidate: TestResult) -> bool {
    ||| (baseline == TestResult::TestFail && candidate == TestResult::TestSkipped)
    ||| (baseline == TestResult::TestPass && candidate == TestResult::TestSkipped)
    ||| (baseline == TestResult::TestSkipped && candidate == TestResult::TestFail)
    ||| (baseline == TestResult::TestSkipped && candidate == TestResult::TestPass)
}

/// What `compare` returns for each ordered pair of outcomes.
pub open spec fn spec_compare(baseline: TestResult, candidate: TestResult) -> Result<
    Comparison,
    CompareError,
> {
    match (baseline, candidate) {
        (TestResult::BuildFail, TestResult::BuildFail) => Ok(Comparison::SameBuildFail),
        (TestResult::TestFail, TestResult::TestFail) => Ok(Comparison::SameTestFail),
        (TestResult::TestSkipped, TestResult::TestSkipped) => Ok(Comparison::SameTestSkipped),
        (TestResult::TestPass, TestResult::TestPass) => Ok(Comparison::SameTestPass),
        (TestResult::BuildFail, TestResult::TestFail) => Ok(Comparison::Fixed),
        (TestResult::BuildFail, TestResult::TestSkipped) => Ok(Comparison::Fixed),
        (TestResult::BuildFail, TestResult::TestPass) => Ok(Comparison::Fixed),
        (TestResult::TestFail, TestResult::TestPass) => Ok(Comparison::Fixed),
        (TestResult::TestPass, TestResult::TestFail) => Ok(Comparison::Regressed),
        (TestResult::TestPass, TestResult::BuildFail) => Ok(Comparison::Regressed),
        (TestResult::TestSkipped, TestResult::BuildFail) => Ok(Comparison::Regressed),
        (TestResult::TestFail, TestResult::BuildFail) => Ok(Comparison::Regressed),
        _ => Err(CompareError { baseline, candidate }),
    }
}

/// Classify the change from a baseline outcome to a candidate outcome.
///
/// `BuildFail` is strictly worse than any test-level outcome and `TestFail`
/// is worse than `TestPass`; `TestSkipped` is ordered against neither
/// `TestFail` nor `TestPass`, and such a pair is a fatal comparison error.
pub fn compare(baseline: TestResult, candidate: TestResult) -> (r: Result<
    Comparison,
    CompareError,
>)
    ensures
        r == spec_compare(baseline, candidate),
{
    match (baseline, candidate) {
        (TestResult::BuildFail, TestResult::BuildFail) => Ok(Comparison::SameBuildFail),
        (TestResult::TestFail, TestResult::TestFail) => Ok(Comparison::SameTestFail),
        (TestResult::TestSkipped, TestResult::TestSkipped) => Ok(Comparison::SameTestSkipped),
        (TestResult::TestPass, TestResult::TestPass) => Ok(Comparison::SameTestPass),
        (TestResult::BuildFail, TestResult::TestFail)
        | (TestResult::BuildFail, TestResult::TestSkipped)
        | (TestResult::BuildFail, TestResult::TestPass)
        | (TestResult::TestFail, TestResult::TestPass) => Ok(Comparison::Fixed),
        (TestResult::TestPass, TestResult::TestFail)
        | (TestResult::TestPass, TestResult::BuildFail)
        | (TestResult::TestSkipped, TestResult::BuildFail)
        | (TestResult::TestFail, TestResult::BuildFail) => Ok(Comparison::Regressed),
        (TestResult::TestFail, TestResult::TestSkipped)
        | (TestResult::TestPass, TestResult::TestSkipped)
        | (TestResult::TestSkipped, TestResult::TestFail)
        | (TestResult::TestSkipped, TestResult::TestPass) => Err(
            CompareError { baseline, candidate },
        ),
    }
}

/// The classifier is total: every ordered pair of outcomes is classified or
/// fatal, and fatal-pair detection is symmetric.
pub proof fn lemma_compare_total_and_symmetric()
    ensures
        forall|b: TestResult, c: TestResult|
            (#[trigger] spec_compare(b, c)) is Ok <==> !fatal_pair(b, c),
        forall|b: TestResult, c: TestResult| #[trigger] fatal_pair(b, c) ==> fatal_pair(c, b),
{
}


/// The wire name of each outcome.
pub open spec fn spec_test_result_str(t: TestResult) -> Seq<char> {
    match t {
        TestResult::BuildFail => "build-fail"@,
        TestResult::TestFail => "test-fail"@,
        TestResult::TestSkipped => "test-skipped"@,
        TestResult::TestPass => "test-pass"@,
    }
}

/// The outcome a wire name denotes, if any.
pub open spec fn spec_parse_test_result(s: Seq<char>) -> Option<TestResult> {
    if s == "build-fail"@ {
        Some(TestResult::BuildFail)
    } else if s == "test-fail"@ {
        Some(TestResult::TestFail)
    } else if s == "test-skipped"@ {
        Some(TestResult::TestSkipped)
    } else if s == "test-pass"@ {
        Some(TestResult::TestPass)
    } else {
        None
    }
}

impl TestResult {
    /// The outcome's wire name.
    pub fn to_str(&self) -> (r: String)
        ensures
            r@ == spec_test_result_str(*self),
    {
        match self {
            TestResult::BuildFail => String::from_str("build-fail"),
            TestResult::TestFail => String::from_str("test-fail"),
            TestResult::TestSkipped => String::from_str("test-skipped"),
            TestResult::TestPass => String::from_str("test-pass"),
        }
    }

    /// The outcome named by a wire name.
    pub fn from_str(s: &str) -> (r: Option<TestResult>)
        ensures
            r == spec_parse_test_result(s@),
    {
        let t = s.to_owned();
        if t == String::from_str("build-fail") {
            Some(TestResult::BuildFail)
        } else if t == String::from_str("test-fail") {
            Some(TestResult::TestFail)
        } else if t == String::from_str("test-skipped") {
            Some(TestResult::TestSkipped)
        } else if t == String::from_str("test-pass") {
            Some(TestResult::TestPass)
        } else {
            None
        }
    }

    /// Every wire name, in declaration order.
    pub fn possible_values() -> (r: Vec<String>)
        ensures
            r@.map_values(|s: String| s@) == seq![
                "build-fail"@,
                "test-fail"@,
                "test-skipped"@,
                "test-pass"@,
            ],
    {
        let mut r: Vec<String> = Vec::new();
        r.push(String::from_str("build-fail"));
        r.push(String::from_str("test-fail"));
        r.push(String::from_str("test-skipped"));
        r.push(String::from_str("test-pass"));
        proof {
            assert(r@.map_values(|s: String| s@) =~= seq![
                "build-fail"@,
                "test-fail"@,
                "test-skipped"@,
                "test-pass"@,
            ]);
        }
        r
    }
}

} // verus!
