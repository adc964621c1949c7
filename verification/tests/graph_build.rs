use crater_report_merge::graph::{distinct_name_count, latest_only, DependencyGraph};
use crater_report_merge::registry::{
    DependencyRequirement, LatestReleaseIndex, PackageRecord, Registry,
};
use crater_report_merge::version::{PackageId, Version};

fn pid(name: &str, major: u64, minor: u64, patch: u64) -> PackageId {
    PackageId {
        name: name.to_string(),
        version: Version::new(major, minor, patch),
    }
}

fn record(name: &str, major: u64, minor: u64, patch: u64, deps: Vec<(&str, &str)>) -> PackageRecord {
    PackageRecord {
        id: pid(name, major, minor, patch),
        dependencies: deps
            .into_iter()
            .map(|(n, r)| DependencyRequirement {
                name: n.to_string(),
                req: r.to_string(),
            })
            .collect(),
    }
}

fn registry_of(records: Vec<PackageRecord>) -> Registry {
    let mut reg = Registry::new();
    for r in records {
        reg.add_record(r);
    }
    reg
}

fn names_of(ids: &[PackageId]) -> Vec<String> {
    let mut v: Vec<String> = ids.iter().map(|p| p.name.clone()).collect();
    v.sort();
    v
}

#[test]
fn impact_contains_root_and_dependent() {
    // app@1.0.0 depends on lib@2.0.0; lib has no outgoing edges.
    let reg = registry_of(vec![
        record("lib", 2, 0, 0, vec![]),
        record("app", 1, 0, 0, vec![("lib", "=2.0.0")]),
    ]);
    let (g, _) = DependencyGraph::build(&reg).expect("build");
    let lib_impact = g.impact_of(&pid("lib", 2, 0, 0));
    assert_eq!(names_of(&lib_impact), vec!["app".to_string(), "lib".to_string()]);
    let app_impact = g.impact_of(&pid("app", 1, 0, 0));
    assert_eq!(names_of(&app_impact), vec!["app".to_string()]);
}

#[test]
fn impact_is_reflexive_for_every_node() {
    let reg = registry_of(vec![
        record("a", 1, 0, 0, vec![("b", "^1")]),
        record("b", 1, 1, 0, vec![]),
        record("c", 0, 3, 0, vec![]),
    ]);
    let (g, _) = DependencyGraph::build(&reg).expect("build");
    for id in [pid("a", 1, 0, 0), pid("b", 1, 1, 0), pid("c", 0, 3, 0)] {
        let impact = g.impact_of(&id);
        assert!(impact.iter().any(|p| *p == id), "{:?} missing itself", id);
    }
}

#[test]
fn impact_follows_paths_transitively() {
    // a -> b -> c: whoever depends on c's dependents is affected by c.
    let reg = registry_of(vec![
        record("a", 1, 0, 0, vec![("b", "^1")]),
        record("b", 1, 0, 0, vec![("c", "^1")]),
        record("c", 1, 0, 0, vec![]),
    ]);
    let (g, _) = DependencyGraph::build(&reg).expect("build");
    let impact = g.impact_of(&pid("c", 1, 0, 0));
    assert_eq!(
        names_of(&impact),
        vec!["a".to_string(), "b".to_string(), "c".to_string()]
    );
}

#[test]
fn cycle_terminates_and_deduplicates() {
    // a and b depend on each other: the traversal must terminate and report
    // each node exactly once.
    let reg = registry_of(vec![
        record("a", 1, 0, 0, vec![("b", "^1")]),
        record("b", 1, 0, 0, vec![("a", "^1")]),
    ]);
    let (g, _) = DependencyGraph::build(&reg).expect("build");
    let impact = g.impact_of(&pid("a", 1, 0, 0));
    assert_eq!(impact.len(), 2);
    assert_eq!(names_of(&impact), vec!["a".to_string(), "b".to_string()]);
}

#[test]
fn underscore_requirement_resolves_to_hyphenated_name() {
    let reg = registry_of(vec![
        record("foo-bar", 1, 2, 0, vec![]),
        record("user", 1, 0, 0, vec![("foo_bar", "^1")]),
    ]);
    let (g, _) = DependencyGraph::build(&reg).expect("build");
    let impact = g.impact_of(&pid("foo-bar", 1, 2, 0));
    assert_eq!(
        names_of(&impact),
        vec!["foo-bar".to_string(), "user".to_string()]
    );
}

#[test]
fn unknown_dependency_name_aborts_the_build() {
    let reg = registry_of(vec![record("user", 1, 0, 0, vec![("ghost-crate", "^1")])]);
    let err = DependencyGraph::build(&reg).err().expect("must abort");
    assert_eq!(err.package, pid("user", 1, 0, 0));
    assert_eq!(err.requirement.name, "ghost-crate".to_string());
    assert_eq!(err.requirement.req, "^1".to_string());
}

#[test]
fn unsatisfied_range_contributes_no_edges() {
    // The name exists but no published version matches: not an error, and no
    // edge appears.
    let reg = registry_of(vec![
        record("lib", 1, 0, 0, vec![]),
        record("user", 1, 0, 0, vec![("lib", "=9.9.9")]),
    ]);
    let (g, _) = DependencyGraph::build(&reg).expect("build");
    let impact = g.impact_of(&pid("lib", 1, 0, 0));
    assert_eq!(names_of(&impact), vec!["lib".to_string()]);
}

#[test]
fn every_matching_version_gets_its_own_edge() {
    // Ambiguous resolution is preserved: both matching versions of lib are
    // depended on, so breaking either affects the user.
    let reg = registry_of(vec![
        record("lib", 1, 0, 0, vec![]),
        record("lib", 1, 1, 0, vec![]),
        record("lib", 2, 0, 0, vec![]),
        record("user", 1, 0, 0, vec![("lib", "^1")]),
    ]);
    let (g, _) = DependencyGraph::build(&reg).expect("build");
    for v in [(1, 0, 0), (1, 1, 0)] {
        let impact = g.impact_of(&pid("lib", v.0, v.1, v.2));
        assert_eq!(
            names_of(&impact),
            vec!["lib".to_string(), "user".to_string()],
            "version {:?}",
            v
        );
    }
    let impact = g.impact_of(&pid("lib", 2, 0, 0));
    assert_eq!(names_of(&impact), vec!["lib".to_string()]);
}

#[test]
fn duplicate_records_share_one_node() {
    let reg = registry_of(vec![
        record("lib", 1, 0, 0, vec![]),
        record("lib", 1, 0, 0, vec![]),
    ]);
    let (g, _) = DependencyGraph::build(&reg).expect("build");
    let impact = g.impact_of(&pid("lib", 1, 0, 0));
    assert_eq!(impact.len(), 1);
}

#[test]
fn node_lookup_by_identity() {
    let reg = registry_of(vec![record("lib", 1, 0, 0, vec![])]);
    let (g, _) = DependencyGraph::build(&reg).expect("build");
    assert!(g.node_of(&pid("lib", 1, 0, 0)).is_some());
    assert!(g.node_of(&pid("lib", 1, 0, 1)).is_none());
    assert!(g.node_of(&pid("other", 1, 0, 0)).is_none());
}

#[test]
fn latest_release_index_records_the_maximum() {
    let reg = registry_of(vec![
        record("lib", 1, 0, 0, vec![]),
        record("lib", 1, 2, 0, vec![]),
        record("lib", 0, 9, 0, vec![]),
        record("solo", 0, 1, 0, vec![]),
    ]);
    let idx = LatestReleaseIndex::build(&reg);
    assert_eq!(
        idx.latest_of(&"lib".to_string()),
        Some(&Version::new(1, 2, 0))
    );
    assert_eq!(
        idx.latest_of(&"solo".to_string()),
        Some(&Version::new(0, 1, 0))
    );
    assert_eq!(idx.latest_of(&"absent".to_string()), None);
}

#[test]
fn latest_only_keeps_current_versions_and_deduplicates() {
    let reg = registry_of(vec![
        record("lib", 1, 0, 0, vec![]),
        record("lib", 1, 2, 0, vec![]),
        record("app", 2, 0, 0, vec![]),
    ]);
    let idx = LatestReleaseIndex::build(&reg);
    let impact = vec![
        pid("lib", 1, 0, 0),
        pid("lib", 1, 2, 0),
        pid("app", 2, 0, 0),
        pid("app", 2, 0, 0),
    ];
    let names = latest_only(&idx, &impact);
    assert_eq!(names, vec!["lib".to_string(), "app".to_string()]);
}

#[test]
fn distinct_names_are_counted_once_per_name() {
    let impact = vec![
        pid("lib", 1, 0, 0),
        pid("lib", 1, 2, 0),
        pid("app", 2, 0, 0),
    ];
    assert_eq!(distinct_name_count(&impact), 2);
    assert_eq!(distinct_name_count(&vec![]), 0);
}

#[test]
fn prerelease_versions_are_distinct_identities() {
    let mut reg = Registry::new();
    reg.add_record(PackageRecord {
        id: PackageId {
            name: "lib".to_string(),
            version: Version {
                major: 1,
                minor: 0,
                patch: 0,
                pre: "alpha".to_string(),
                build: String::new(),
            },
        },
        dependencies: vec![],
    });
    reg.add_record(record("lib", 1, 0, 0, vec![]));
    let (g, idx) = DependencyGraph::build(&reg).expect("build");
    assert_eq!(g.impact_of(&pid("lib", 1, 0, 0)).len(), 1);
    // The plain release outranks the pre-release.
    assert_eq!(
        idx.latest_of(&"lib".to_string()),
        Some(&Version::new(1, 0, 0))
    );
}
