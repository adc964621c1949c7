use crater_report_merge::outcome::{compare, CompareError, Comparison, TestResult};

fn all_outcomes() -> Vec<TestResult> {
    vec![
        TestResult::BuildFail,
        TestResult::TestFail,
        TestResult::TestSkipped,
        TestResult::TestPass,
    ]
}

#[test]
fn same_outcomes_map_to_same_categories() {
    assert_eq!(
        compare(TestResult::BuildFail, TestResult::BuildFail),
        Ok(Comparison::SameBuildFail)
    );
    assert_eq!(
        compare(TestResult::TestFail, TestResult::TestFail),
        Ok(Comparison::SameTestFail)
    );
    assert_eq!(
        compare(TestResult::TestSkipped, TestResult::TestSkipped),
        Ok(Comparison::SameTestSkipped)
    );
    assert_eq!(
        compare(TestResult::TestPass, TestResult::TestPass),
        Ok(Comparison::SameTestPass)
    );
}

#[test]
fn build_fail_to_test_pass_is_fixed() {
    assert_eq!(
        compare(TestResult::BuildFail, TestResult::TestPass),
        Ok(Comparison::Fixed)
    );
}

#[test]
fn test_pass_to_build_fail_is_regressed() {
    assert_eq!(
        compare(TestResult::TestPass, TestResult::BuildFail),
        Ok(Comparison::Regressed)
    );
}

#[test]
fn fixed_pairs() {
    assert_eq!(
        compare(TestResult::BuildFail, TestResult::TestFail),
        Ok(Comparison::Fixed)
    );
    assert_eq!(
        compare(TestResult::BuildFail, TestResult::TestSkipped),
        Ok(Comparison::Fixed)
    );
    assert_eq!(
        compare(TestResult::TestFail, TestResult::TestPass),
        Ok(Comparison::Fixed)
    );
}

#[test]
fn regressed_pairs() {
    assert_eq!(
        compare(TestResult::TestPass, TestResult::TestFail),
        Ok(Comparison::Regressed)
    );
    assert_eq!(
        compare(TestResult::TestSkipped, TestResult::BuildFail),
        Ok(Comparison::Regressed)
    );
    assert_eq!(
        compare(TestResult::TestFail, TestResult::BuildFail),
        Ok(Comparison::Regressed)
    );
}

#[test]
fn skipped_crossings_fail_symmetrically() {
    assert_eq!(
        compare(TestResult::TestSkipped, TestResult::TestFail),
        Err(CompareError {
            baseline: TestResult::TestSkipped,
            candidate: TestResult::TestFail,
        })
    );
    assert_eq!(
        compare(TestResult::TestFail, TestResult::TestSkipped),
        Err(CompareError {
            baseline: TestResult::TestFail,
            candidate: TestResult::TestSkipped,
        })
    );
    assert_eq!(
        compare(TestResult::TestSkipped, TestResult::TestPass),
        Err(CompareError {
            baseline: TestResult::TestSkipped,
            candidate: TestResult::TestPass,
        })
    );
    assert_eq!(
        compare(TestResult::TestPass, TestResult::TestSkipped),
        Err(CompareError {
            baseline: TestResult::TestPass,
            candidate: TestResult::TestSkipped,
        })
    );
}

#[test]
fn all_sixteen_pairs_are_classified_or_fatal() {
    let fatal = |b: TestResult, c: TestResult| {
        (b == TestResult::TestSkipped) != (c == TestResult::TestSkipped)
            && b != TestResult::BuildFail
            && c != TestResult::BuildFail
    };
    let mut seen = 0;
    for &b in &all_outcomes() {
        for &c in &all_outcomes() {
            seen += 1;
            let r = compare(b, c);
            if fatal(b, c) {
                assert_eq!(r, Err(CompareError { baseline: b, candidate: c }));
            } else {
                assert!(r.is_ok(), "pair {:?}/{:?} fell through", b, c);
            }
        }
    }
    assert_eq!(seen, 16);
}

#[test]
fn outcome_wire_names_round_trip() {
    for &t in &all_outcomes() {
        let s = t.to_str();
        assert_eq!(TestResult::from_str(s.as_str()), Some(t));
    }
    assert_eq!(TestResult::from_str("build-fail"), Some(TestResult::BuildFail));
    assert_eq!(TestResult::from_str("nonsense"), None);
    let names = TestResult::possible_values();
    assert_eq!(
        names,
        vec![
            "build-fail".to_string(),
            "test-fail".to_string(),
            "test-skipped".to_string(),
            "test-pass".to_string()
        ]
    );
}
