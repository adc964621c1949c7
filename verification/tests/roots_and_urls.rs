use crater_report_merge::filter::filter_roots;
use crater_report_merge::graph::DependencyGraph;
use crater_report_merge::registry::{DependencyRequirement, PackageRecord, Registry};
use crater_report_merge::urlid::{parse_registry_url, RegistryUrlError};
use crater_report_merge::version::{PackageId, Version};

fn pid(name: &str, major: u64, minor: u64, patch: u64) -> PackageId {
    PackageId {
        name: name.to_string(),
        version: Version::new(major, minor, patch),
    }
}

fn record(name: &str, major: u64, minor: u64, patch: u64, deps: Vec<(&str, &str)>) -> PackageRecord {
    PackageRecord {
        id: pid(name, major, minor, patch),
        dependencies: deps
            .into_iter()
            .map(|(n, r)| DependencyRequirement {
                name: n.to_string(),
                req: r.to_string(),
            })
            .collect(),
    }
}

fn registry_of(records: Vec<PackageRecord>) -> Registry {
    let mut reg = Registry::new();
    for r in records {
        reg.add_record(r);
    }
    reg
}

#[test]
fn downstream_regression_displaces_its_cause() {
    // Regressed set {A, B}, edge A -> B. A is in B's impact set, so B is
    // removed and {A} survives: the filter's literal, asymmetric rule.
    let reg = registry_of(vec![
        record("b", 1, 0, 0, vec![]),
        record("a", 1, 0, 0, vec![("b", "^1")]),
    ]);
    let (g, _) = DependencyGraph::build(&reg).expect("build");
    let regressed = vec![pid("a", 1, 0, 0), pid("b", 1, 0, 0)];
    let roots = filter_roots(&g, &regressed);
    assert_eq!(roots, vec![pid("a", 1, 0, 0)]);
}

#[test]
fn independent_regressions_all_survive() {
    let reg = registry_of(vec![
        record("x", 1, 0, 0, vec![]),
        record("y", 1, 0, 0, vec![]),
    ]);
    let (g, _) = DependencyGraph::build(&reg).expect("build");
    let regressed = vec![pid("x", 1, 0, 0), pid("y", 1, 0, 0)];
    let roots = filter_roots(&g, &regressed);
    assert_eq!(roots, regressed);
}

#[test]
fn filter_is_idempotent_on_its_output() {
    let reg = registry_of(vec![
        record("c", 1, 0, 0, vec![]),
        record("b", 1, 0, 0, vec![("c", "^1")]),
        record("a", 1, 0, 0, vec![("b", "^1")]),
        record("solo", 1, 0, 0, vec![]),
    ]);
    let (g, _) = DependencyGraph::build(&reg).expect("build");
    let regressed = vec![
        pid("a", 1, 0, 0),
        pid("b", 1, 0, 0),
        pid("c", 1, 0, 0),
        pid("solo", 1, 0, 0),
    ];
    let once = filter_roots(&g, &regressed);
    let twice = filter_roots(&g, &once);
    assert_eq!(once, twice);
}

#[test]
fn registry_url_yields_the_package_identity() {
    let r = parse_registry_url("https://crates.io/crates/serde/1.0.100");
    assert_eq!(r, Ok(pid("serde", 1, 0, 100)));
}

#[test]
fn prerelease_url_keeps_its_identifier() {
    let r = parse_registry_url("https://crates.io/crates/tool/2.0.0-beta.3").expect("parse");
    assert_eq!(r.name, "tool".to_string());
    assert_eq!(r.version.major, 2);
    assert_eq!(r.version.pre, "beta.3".to_string());
}

#[test]
fn non_registry_urls_are_skipped() {
    assert_eq!(
        parse_registry_url("https://example.com/elsewhere/1.0.0"),
        Err(RegistryUrlError::NotRegistry)
    );
    assert_eq!(
        parse_registry_url("https://crates.io/policies"),
        Err(RegistryUrlError::NotRegistry)
    );
    // A crates/ segment with no slash after the name is not a package URL.
    assert_eq!(
        parse_registry_url("https://crates.io/crates/serde"),
        Err(RegistryUrlError::NotRegistry)
    );
}

#[test]
fn malformed_version_segment_is_its_own_error() {
    assert_eq!(
        parse_registry_url("https://crates.io/crates/serde/not-a-version"),
        Err(RegistryUrlError::InvalidVersion)
    );
}
