use crater_report_merge::outcome::{CompareError, Comparison, TestResult};
use crater_report_merge::results::{merge_results, BuildTestResult, CrateResult, TestResults};

fn run(res: TestResult, log: &str) -> Option<BuildTestResult> {
    Some(BuildTestResult {
        res,
        log: log.to_string(),
    })
}

fn row(name: &str, runs: [Option<BuildTestResult>; 2]) -> CrateResult {
    CrateResult {
        name: name.to_string(),
        url: format!("https://crates.io/crates/{}/1.0.0", name),
        res: Comparison::Unknown,
        runs,
    }
}

#[test]
fn merge_classifies_and_rewrites_logs() {
    let candidate = TestResults {
        crates: vec![row("alpha", [None, run(TestResult::BuildFail, "alpha/log")])],
    };
    let baseline = TestResults {
        crates: vec![row("alpha", [run(TestResult::TestPass, "base/alpha"), None])],
    };
    let out = merge_results(&candidate, &baseline, "https://reports/base/", "https://reports/cand/")
        .expect("merge");
    assert_eq!(out.crates.len(), 1);
    let merged = &out.crates[0];
    assert_eq!(merged.res, Comparison::Regressed);
    let run0 = merged.runs[0].as_ref().expect("baseline run copied in");
    assert_eq!(run0.res, TestResult::TestPass);
    assert_eq!(run0.log, "https://reports/base/base/alpha".to_string());
    let run1 = merged.runs[1].as_ref().expect("candidate run kept");
    assert_eq!(run1.res, TestResult::BuildFail);
    assert_eq!(run1.log, "https://reports/cand/alpha/log".to_string());
}

#[test]
fn row_missing_from_baseline_is_untouched() {
    let candidate = TestResults {
        crates: vec![row("lonely", [None, run(TestResult::TestPass, "raw-log")])],
    };
    let baseline = TestResults { crates: vec![] };
    let out = merge_results(&candidate, &baseline, "b/", "c/").expect("merge");
    let merged = &out.crates[0];
    assert_eq!(merged.res, Comparison::Unknown);
    assert!(merged.runs[0].is_none());
    // Not joined, so its log is not rewritten either.
    assert_eq!(merged.runs[1].as_ref().unwrap().log, "raw-log".to_string());
}

#[test]
fn baseline_without_first_run_keeps_category_but_prefixes_logs() {
    let candidate = TestResults {
        crates: vec![row("beta", [run(TestResult::TestFail, "old0"), run(TestResult::TestPass, "new1")])],
    };
    let baseline = TestResults {
        crates: vec![row("beta", [None, None])],
    };
    let out = merge_results(&candidate, &baseline, "B/", "C/").expect("merge");
    let merged = &out.crates[0];
    assert_eq!(merged.res, Comparison::Unknown);
    assert_eq!(merged.runs[0].as_ref().unwrap().log, "B/old0".to_string());
    assert_eq!(merged.runs[1].as_ref().unwrap().log, "C/new1".to_string());
}

#[test]
fn skipped_crossing_aborts_the_merge() {
    let candidate = TestResults {
        crates: vec![
            row("ok", [None, run(TestResult::TestPass, "l1")]),
            row("bad", [None, run(TestResult::TestSkipped, "l2")]),
        ],
    };
    let baseline = TestResults {
        crates: vec![
            row("ok", [run(TestResult::TestPass, "b1"), None]),
            row("bad", [run(TestResult::TestFail, "b2"), None]),
        ],
    };
    let err = merge_results(&candidate, &baseline, "B/", "C/").err().expect("must fail");
    assert_eq!(
        err,
        CompareError {
            baseline: TestResult::TestFail,
            candidate: TestResult::TestSkipped,
        }
    );
}

#[test]
fn fixed_classification_through_merge() {
    let candidate = TestResults {
        crates: vec![row("gamma", [None, run(TestResult::TestPass, "g")])],
    };
    let baseline = TestResults {
        crates: vec![row("gamma", [run(TestResult::BuildFail, "g0"), None])],
    };
    let out = merge_results(&candidate, &baseline, "B/", "C/").expect("merge");
    assert_eq!(out.crates[0].res, Comparison::Fixed);
}
