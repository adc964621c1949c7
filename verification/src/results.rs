//! Result documents: per-package outcomes of a baseline run and a candidate
//! run, and the merge that classifies each package's change and rewrites log
//! references to absolute URLs.

use vstd::prelude::*;
use vstd::string::StringExecFns;

use crate::outcome::{compare, spec_compare, CompareError, Comparison, TestResult};

verus! {

/// Mathematical value of a [`BuildTestResult`].
#[verifier::ext_equal]
pub ghost struct BuildTestResultView {
    pub res: TestResult,
    pub log: Seq<char>,
}

/// One run's outcome for one package, with its log reference.
#[derive(Debug)]
#[verifier::ext_equal]
pub struct BuildTestResult {
    pub res: TestResult,
    pub log: String,
}

impl View for BuildTestResult {
    type V = BuildTestResultView;

    open spec fn view(&self) -> BuildTestResultView {
        BuildTestResultView { res: self.res, log: self.log@ }
    }
}

impl Clone for BuildTestResult {
    fn clone(&self) -> (r: Self)
        ensures
            r == *self,
    {
        let r = BuildTestResult { res: self.res, log: self.log.clone() };
        proof {
            assert(r =~= *self);
        }
        r
    }
}

/// The view of an optional run.
pub open spec fn opt_run_view(o: Option<BuildTestResult>) -> Option<BuildTestResultView> {
    match o {
        Some(b) => Some(b@),
        None => None,
    }
}

/// Mathematical value of a [`CrateResult`].
#[verifier::ext_equal]
pub ghost struct CrateResultView {
    pub name: Seq<char>,
    pub url: Seq<char>,
    pub res: Comparison,
    pub runs: Seq<Option<BuildTestResultView>>,
}

/// One package's row in a result document: the package name, its source
/// URL, its comparison category, and the two runs (baseline first).
#[derive(Debug)]
#[verifier::ext_equal]
pub struct CrateResult {
    pub name: String,
    pub url: String,
    pub res: Comparison,
    pub runs: [Option<BuildTestResult>; 2],
}

impl View for CrateResult {
    type V = CrateResultView;

    open spec fn view(&self) -> CrateResultView {
        CrateResultView {
            name: self.name@,
            url: self.url@,
            res: self.res,
            runs: self.runs@.map_values(|o: Option<BuildTestResult>| opt_run_view(o)),
        }
    }
}

/// One whole result document.
#[derive(Debug)]
pub struct TestResults {
    pub crates: Vec<CrateResult>,
}

impl View for TestResults {
    type V = Seq<CrateResultView>;

    open spec fn view(&self) -> Seq<CrateResultView> {
        self.crates@.map_values(|c: CrateResult| c@)
    }
}

/// Whether the baseline document has a row for the name.
pub open spec fn baseline_has(base: Seq<CrateResultView>, name: Seq<char>) -> bool {
    exists|i: int| 0 <= i < base.len() && #[trigger] base[i].name == name
}

/// The baseline row carrying the name.
pub open spec fn baseline_at(base: Seq<CrateResultView>, name: Seq<char>) -> int {
    choose|i: int| 0 <= i < base.len() && #[trigger] base[i].name == name
}

/// A run with its log reference turned absolute by the given prefix.
pub open spec fn prefixed_run(
    o: Option<BuildTestResultView>,
    prefix: Seq<char>,
) -> Option<BuildTestResultView> {
    match o {
        Some(b) => Some(BuildTestResultView { res: b.res, log: prefix + b.log }),
        None => None,
    }
}

/// One row merged against its baseline row: the baseline run is copied in
/// when it exists, the pair of outcomes is classified, and both log
/// references are made absolute. A candidate row without a candidate run
/// next to an existing baseline run cannot be classified.
pub open spec fn spec_merge_with(
    a: CrateResultView,
    b: CrateResultView,
    pb: Seq<char>,
    pc: Seq<char>,
) -> Result<CrateResultView, CompareError> {
    match b.runs[0] {
        Some(b0) => match a.runs[1] {
            Some(a1) => match spec_compare(b0.res, a1.res) {
                Ok(cat) => Ok(
                    CrateResultView {
                        name: a.name,
                        url: a.url,
                        res: cat,
                        runs: seq![
                            prefixed_run(Some(b0), pb),
                            prefixed_run(a.runs[1], pc),
                        ],
                    },
                ),
                Err(e) => Err(e),
            },
            None => Err(CompareError { baseline: b0.res, candidate: b0.res }),
        },
        None => Ok(
            CrateResultView {
                name: a.name,
                url: a.url,
                res: a.res,
                runs: seq![prefixed_run(a.runs[0], pb), prefixed_run(a.runs[1], pc)],
            },
        ),
    }
}

/// What the merge makes of one candidate row: a row whose name the baseline
/// lacks is kept untouched, any other row is merged against its baseline
/// row.
pub open spec fn spec_merge_rec(
    a: CrateResultView,
    base: Seq<CrateResultView>,
    pb: Seq<char>,
    pc: Seq<char>,
) -> Result<CrateResultView, CompareError> {
    if baseline_has(base, a.name) {
        spec_merge_with(a, base[baseline_at(base, a.name)], pb, pc)
    } else {
        Ok(a)
    }
}

/// Copy of an optional run.
fn clone_run(o: &Option<BuildTestResult>) -> (r: Option<BuildTestResult>)
    ensures
        opt_run_view(r) == opt_run_view(*o),
{
    match o {
        Some(b) => Some(b.clone()),
        None => None,
    }
}

/// A run with its log reference turned absolute.
fn prefix_run(o: &Option<BuildTestResult>, prefix: &str) -> (r: Option<BuildTestResult>)
    ensures
        opt_run_view(r) == prefixed_run(opt_run_view(*o), prefix@),
{
    match o {
        Some(b) => {
            let mut log = prefix.to_owned();
            log.append(b.log.as_str());
            Some(BuildTestResult { res: b.res, log })
        },
        None => None,
    }
}

/// The baseline row published under the name, by linear scan.
fn find_by_name(base: &TestResults, name: &String) -> (r: Option<usize>)
    ensures
        match r {
            Some(i) => i < base@.len() && base@[i as int].name == name@,
            None => forall|i: int| 0 <= i < base@.len() ==> #[trigger] base@[i].name != name@,
        },
{
    let n = base.crates.len();
    let mut k: usize = 0;
    while k < n
        invariant
            n == base@.len(),
            k <= n,
            forall|i: int| 0 <= i < k ==> #[trigger] base@[i].name != name@,
        decreases n - k,
    {
        if base.crates[k].name == *name {
            proof {
                assert(base@[k as int].name == name@);
            }
            return Some(k);
        }
        k += 1;
    }
    None
}

/// Merge a candidate result document against a baseline document, row by
/// row, joined on package name. Rows whose name the baseline lacks are kept
/// as they are and excluded from classification. For the others the
/// baseline run is copied into the first slot, the outcome pair is
/// classified, and both log references get their run's URL prefix. The
/// first unclassifiable outcome pair aborts the merge with the error
/// naming the two outcomes.
pub fn merge_results(
    candidate: &TestResults,
    baseline: &TestResults,
    prefix_baseline: &str,
    prefix_candidate: &str,
) -> (r: Result<TestResults, CompareError>)
    requires
        forall|i: int, j: int|
            #![trigger baseline@[i].name, baseline@[j].name]
            0 <= i < baseline@.len() && 0 <= j < baseline@.len() && i != j ==> baseline@[i].name
                != baseline@[j].name,
        forall|i: int|
            0 <= i < candidate@.len() && baseline_has(baseline@, (#[trigger] candidate@[i]).name)
                && baseline@[baseline_at(baseline@, candidate@[i].name)].runs[0] is Some
                ==> candidate@[i].runs[1] is Some,
    ensures
        r is Ok <==> (forall|i: int|
            0 <= i < candidate@.len() ==> (#[trigger] spec_merge_rec(
                candidate@[i],
                baseline@,
                prefix_baseline@,
                prefix_candidate@,
            )) is Ok),
        (match r {
            Ok(out) => out@.len() == candidate@.len() && forall|i: int|
                0 <= i < candidate@.len() ==> spec_merge_rec(
                    #[trigger] candidate@[i],
                    baseline@,
                    prefix_baseline@,
                    prefix_candidate@,
                ) == Ok::<CrateResultView, CompareError>(out@[i]),
            Err(e) => exists|i: int|
                {
                    &&& 0 <= i < candidate@.len()
                    &&& #[trigger] spec_merge_rec(
                        candidate@[i],
                        baseline@,
                        prefix_baseline@,
                        prefix_candidate@,
                    ) == Err::<CrateResultView, CompareError>(e)
                    &&& forall|i2: int|
                        0 <= i2 < i ==> (#[trigger] spec_merge_rec(
                            candidate@[i2],
                            baseline@,
                            prefix_baseline@,
                            prefix_candidate@,
                        )) is Ok
                },
        }),
{
    let n = candidate.crates.len();
    let mut out: Vec<CrateResult> = Vec::new();
    let mut i: usize = 0;
    while i < n
        invariant
            n == candidate@.len(),
            i <= n,
            forall|i2: int, j2: int|
                #![trigger baseline@[i2].name, baseline@[j2].name]
                0 <= i2 < baseline@.len() && 0 <= j2 < baseline@.len() && i2 != j2
                    ==> baseline@[i2].name != baseline@[j2].name,
            forall|i2: int|
                0 <= i2 < candidate@.len() && baseline_has(
                    baseline@,
                    (#[trigger] candidate@[i2]).name,
                ) && baseline@[baseline_at(baseline@, candidate@[i2].name)].runs[0] is Some
                    ==> candidate@[i2].runs[1] is Some,
            out@.len() == i,
            forall|i2: int|
                0 <= i2 < i ==> spec_merge_rec(
                    #[trigger] candidate@[i2],
                    baseline@,
                    prefix_baseline@,
                    prefix_candidate@,
                ) == Ok::<CrateResultView, CompareError>(out@.map_values(|c: CrateResult| c@)[i2]),
        decreases n - i,
    {
        let rec = &candidate.crates[i];
        let ghost av = candidate@[i as int];
        proof {
            assert(av == rec@);
        }
        let merged: CrateResult = match find_by_name(baseline, &rec.name) {
            None => {
                proof {
                    assert(!baseline_has(baseline@, av.name));
                }
                CrateResult {
                    name: rec.name.clone(),
                    url: rec.url.clone(),
                    res: rec.res,
                    runs: [clone_run(&rec.runs[0]), clone_run(&rec.runs[1])],
                }
            },
            Some(bi) => {
                proof {
                    assert(baseline_has(baseline@, av.name));
                    assert(baseline_at(baseline@, av.name) == bi as int) by {
                        let w = baseline_at(baseline@, av.name);
                        assert(0 <= w < baseline@.len() && baseline@[w].name == av.name);
                    }
                }
                let brec = &baseline.crates[bi];
                match &brec.runs[0] {
                    Some(b0) => {
                        let a1res: TestResult = match &rec.runs[1] {
                            Some(a1) => a1.res,
                            None => {
                                proof {
                                    assert(false);
                                }
                                TestResult::BuildFail
                            },
                        };
                        let cat = match compare(b0.res, a1res) {
                            Ok(c) => c,
                            Err(e) => {
                                proof {
                                    assert(spec_merge_rec(
                                        av,
                                        baseline@,
                                        prefix_baseline@,
                                        prefix_candidate@,
                                    ) == Err::<CrateResultView, CompareError>(e));
                                }
                                return Err(e);
                            },
                        };
                        CrateResult {
                            name: rec.name.clone(),
                            url: rec.url.clone(),
                            res: cat,
                            runs: [
                                prefix_run(&Some(b0.clone()), prefix_baseline),
                                prefix_run(&rec.runs[1], prefix_candidate),
                            ],
                        }
                    },
                    None => CrateResult {
                        name: rec.name.clone(),
                        url: rec.url.clone(),
                        res: rec.res,
                        runs: [
                            prefix_run(&rec.runs[0], prefix_baseline),
                            prefix_run(&rec.runs[1], prefix_candidate),
                        ],
                    },
                }
            },
        };
        proof {
            assert(spec_merge_rec(av, baseline@, prefix_baseline@, prefix_candidate@)
                == Ok::<CrateResultView, CompareError>(merged@)) by {
                assert(merged@.runs =~= spec_merge_rec(
                    av,
                    baseline@,
                    prefix_baseline@,
                    prefix_candidate@,
                )->Ok_0.runs);
                assert(merged@ =~= spec_merge_rec(
                    av,
                    baseline@,
                    prefix_baseline@,
                    prefix_candidate@,
                )->Ok_0);
            }
        }
        let ghost pre_out = out@;
        out.push(merged);
        proof {
            assert(out@.map_values(|c: CrateResult| c@) =~= pre_out.map_values(
                |c: CrateResult| c@,
            ).push(merged@));
        }
        i += 1;
    }
    Ok(TestResults { crates: out })
}

} // verus!
