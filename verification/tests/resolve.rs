use rjs::dedup::DependencyDeduplication;
use rjs::manifest::root_package;
use rjs::registry::{select_version, DistInfo, PackageInfo, RegistrySnapshot, VersionInfo};
use rjs::resolver::{DependencyResolver, ResolveError};

fn version(v: &str, deps: &[(&str, &str)]) -> (String, VersionInfo) {
    (
        v.to_string(),
        VersionInfo {
            version: v.to_string(),
            dependencies: deps
                .iter()
                .map(|(n, r)| (n.to_string(), r.to_string()))
                .collect(),
            dev_dependencies: Vec::new(),
            dist: DistInfo {
                shasum: String::new(),
                tarball: format!("https://registry.example/{}.tgz", v),
            },
        },
    )
}

fn record(
    name: &str,
    versions: Vec<(String, VersionInfo)>,
    tags: &[(&str, &str)],
) -> (String, Option<PackageInfo>) {
    (
        name.to_string(),
        Some(PackageInfo {
            name: name.to_string(),
            versions,
            dist_tags: tags
                .iter()
                .map(|(t, v)| (t.to_string(), v.to_string()))
                .collect(),
        }),
    )
}

fn requests(reqs: &[(&str, &str)]) -> Vec<(String, String)> {
    reqs.iter()
        .map(|(n, r)| (n.to_string(), r.to_string()))
        .collect()
}

fn node_ids(tree: &rjs::pkg::DependencyTree) -> Vec<String> {
    let mut ids: Vec<String> = tree.dependencies.iter().map(|(k, _)| k.clone()).collect();
    ids.sort();
    ids
}

#[test]
fn single_direct_install() {
    let registry = RegistrySnapshot {
        entries: vec![record(
            "lodash",
            vec![version("4.17.20", &[]), version("4.17.21", &[])],
            &[("latest", "4.17.21")],
        )],
    };
    let mut resolver = DependencyResolver::new();
    let root = root_package(&requests(&[("lodash", "latest")]), false);
    let (tree, pending) = resolver.resolve_dependencies(&root, &registry);
    assert!(pending.is_empty());
    assert_eq!(node_ids(&tree), vec!["lodash@4.17.21".to_string()]);
    let lockfile = resolver.generate_lockfile(&tree, "https://registry.example");
    assert_eq!(lockfile.packages.len(), 1);
    assert_eq!(lockfile.packages[0].0, "lodash@4.17.21");
    assert_eq!(lockfile.packages[0].1.version, "4.17.21");
}

#[test]
fn transitive_resolution() {
    let registry = RegistrySnapshot {
        entries: vec![
            record("a", vec![version("1.2.0", &[("b", "^2.0.0")])], &[]),
            record("b", vec![version("2.3.1", &[])], &[]),
        ],
    };
    let mut resolver = DependencyResolver::new();
    let root = root_package(&requests(&[("a", "^1.0.0")]), false);
    let (tree, pending) = resolver.resolve_dependencies(&root, &registry);
    assert!(pending.is_empty());
    assert_eq!(
        node_ids(&tree),
        vec!["a@1.2.0".to_string(), "b@2.3.1".to_string()]
    );
    let lockfile = resolver.generate_lockfile(&tree, "https://registry.example");
    assert_eq!(lockfile.packages.len(), 2);
    // closure: a's edge names b, and b is a key of the lockfile
    let a_entry = lockfile
        .packages
        .iter()
        .find(|(k, _)| k == "a@1.2.0")
        .unwrap();
    assert_eq!(a_entry.1.dependencies, vec![
        ("b".to_string(), "^2.0.0".to_string())
    ]);
    assert!(lockfile.packages.iter().any(|(k, _)| k == "b@2.3.1"));
}

#[test]
fn deduplication_collapses_compatible_versions() {
    let registry = RegistrySnapshot {
        entries: vec![
            record("a", vec![version("1.0.0", &[("lib", "^1.0.0")])], &[]),
            record("c", vec![version("1.0.0", &[("lib", "^1.2.0")])], &[]),
            record(
                "lib",
                vec![version("1.0.0", &[]), version("1.3.0", &[])],
                &[],
            ),
        ],
    };
    let mut resolver = DependencyResolver::new();
    let root = root_package(&requests(&[("a", "^1.0.0"), ("c", "^1.0.0")]), false);
    let (tree, pending) = resolver.resolve_dependencies(&root, &registry);
    assert!(pending.is_empty());
    let lib_nodes: Vec<&String> = tree
        .dependencies
        .iter()
        .filter(|(_, p)| p.name == "lib")
        .map(|(k, _)| k)
        .collect();
    assert_eq!(lib_nodes, vec!["lib@1.3.0"]);
    // both callers' edges resolve to 1.3.0: it is the only lib entry
    let lockfile = resolver.generate_lockfile(&tree, "https://registry.example");
    assert!(lockfile.packages.iter().any(|(k, _)| k == "lib@1.3.0"));
    assert_eq!(
        lockfile
            .packages
            .iter()
            .filter(|(_, e)| e.dependencies.iter().any(|(n, _)| n == "lib"))
            .count(),
        2
    );
}

#[test]
fn post_pass_rewrites_collapsible_versions() {
    // `a` accepts any lib from 1.0.0 on and resolves to 1.3.0; `c` pins
    // the 1.0.x line and resolves to 1.0.0.  Since a caller's range
    // accepts both, the lower version is removed and every lib edge is
    // rewritten to the preferred version.
    let registry = RegistrySnapshot {
        entries: vec![
            record("a", vec![version("1.0.0", &[("lib", ">=1.0.0")])], &[]),
            record("c", vec![version("1.0.0", &[("lib", "~1.0.0")])], &[]),
            record(
                "lib",
                vec![version("1.0.0", &[]), version("1.3.0", &[])],
                &[],
            ),
        ],
    };
    let mut resolver = DependencyResolver::new();
    let root = root_package(&requests(&[("a", "^1.0.0"), ("c", "^1.0.0")]), false);
    let (tree, pending) = resolver.resolve_dependencies(&root, &registry);
    assert!(pending.is_empty());
    let lib_nodes: Vec<&String> = tree
        .dependencies
        .iter()
        .filter(|(_, p)| p.name == "lib")
        .map(|(k, _)| k)
        .collect();
    assert_eq!(lib_nodes, vec!["lib@1.3.0"]);
    let lockfile = resolver.generate_lockfile(&tree, "https://registry.example");
    for key in ["a@1.0.0", "c@1.0.0"] {
        let entry = lockfile.packages.iter().find(|(k, _)| k == key).unwrap();
        assert_eq!(entry.1.dependencies, vec![
            ("lib".to_string(), "1.3.0".to_string())
        ]);
    }
}

#[test]
fn version_conflict_retained() {
    let registry = RegistrySnapshot {
        entries: vec![
            record("a", vec![version("1.0.0", &[("lib", "^1.0.0")])], &[]),
            record("c", vec![version("1.0.0", &[("lib", "^2.0.0")])], &[]),
            record(
                "lib",
                vec![version("1.5.0", &[]), version("2.0.0", &[])],
                &[],
            ),
        ],
    };
    let mut resolver = DependencyResolver::new();
    let root = root_package(&requests(&[("a", "^1.0.0"), ("c", "^1.0.0")]), false);
    let (tree, pending) = resolver.resolve_dependencies(&root, &registry);
    assert!(pending.is_empty());
    let mut lib_versions: Vec<String> = tree
        .dependencies
        .iter()
        .filter(|(_, p)| p.name == "lib")
        .map(|(_, p)| p.version.clone())
        .collect();
    lib_versions.sort();
    assert_eq!(lib_versions, vec!["1.5.0".to_string(), "2.0.0".to_string()]);
}

#[test]
fn cycle_terminates_with_both_nodes() {
    let registry = RegistrySnapshot {
        entries: vec![
            record("cyc_a", vec![version("1.0.0", &[("cyc_b", "^1.0.0")])], &[]),
            record("cyc_b", vec![version("1.0.0", &[("cyc_a", "^1.0.0")])], &[]),
        ],
    };
    let mut resolver = DependencyResolver::new();
    let root = root_package(&requests(&[("cyc_a", "^1.0.0")]), false);
    let (tree, pending) = resolver.resolve_dependencies(&root, &registry);
    assert!(pending.is_empty());
    assert_eq!(
        node_ids(&tree),
        vec!["cyc_a@1.0.0".to_string(), "cyc_b@1.0.0".to_string()]
    );
}

#[test]
fn no_matching_version_is_dropped() {
    let registry = RegistrySnapshot {
        entries: vec![record("a", vec![version("1.0.0", &[])], &[])],
    };
    let mut resolver = DependencyResolver::new();
    // the error itself
    match resolver.resolve_package(&"a".to_string(), &"^99.0.0".to_string(), &registry) {
        Err(ResolveError::NoMatchingVersion { name, range }) => {
            assert_eq!(name, "a");
            assert_eq!(range, "^99.0.0");
        }
        _ => panic!("expected NoMatchingVersion"),
    }
    // the lenient policy: no node, no pending request, resolution succeeds
    let root = root_package(&requests(&[("a", "^99.0.0")]), false);
    let (tree, pending) = resolver.resolve_dependencies(&root, &registry);
    assert!(pending.is_empty());
    assert!(tree.dependencies.is_empty());
}

#[test]
fn unfetched_names_are_reported_then_resolved() {
    let mut registry = RegistrySnapshot::new();
    registry.insert(
        "a".to_string(),
        Some(PackageInfo {
            name: "a".to_string(),
            versions: vec![version("1.0.0", &[("b", "^1.0.0")])],
            dist_tags: Vec::new(),
        }),
    );
    let mut resolver = DependencyResolver::new();
    let root = root_package(&requests(&[("a", "^1.0.0")]), false);
    let (tree, pending) = resolver.resolve_dependencies(&root, &registry);
    assert_eq!(node_ids(&tree), vec!["a@1.0.0".to_string()]);
    assert_eq!(pending, vec![("b".to_string(), "^1.0.0".to_string())]);
    // the driver fetches the missing record, grows the snapshot, retries
    registry.insert(
        "b".to_string(),
        Some(PackageInfo {
            name: "b".to_string(),
            versions: vec![version("1.4.2", &[])],
            dist_tags: Vec::new(),
        }),
    );
    let (tree, pending) = resolver.resolve_dependencies(&root, &registry);
    assert!(pending.is_empty());
    assert_eq!(
        node_ids(&tree),
        vec!["a@1.0.0".to_string(), "b@1.4.2".to_string()]
    );
}

#[test]
fn failed_fetches_are_dropped() {
    let registry = RegistrySnapshot {
        entries: vec![
            record("a", vec![version("1.0.0", &[("gone", "^1.0.0")])], &[]),
            ("gone".to_string(), None),
        ],
    };
    let mut resolver = DependencyResolver::new();
    let root = root_package(&requests(&[("a", "^1.0.0")]), false);
    let (tree, pending) = resolver.resolve_dependencies(&root, &registry);
    assert!(pending.is_empty());
    assert_eq!(node_ids(&tree), vec!["a@1.0.0".to_string()]);
}

#[test]
fn dev_requests_resolve_but_do_not_propagate_dev_edges() {
    let registry = RegistrySnapshot {
        entries: vec![record("chai", vec![version("4.3.0", &[])], &[])],
    };
    let mut resolver = DependencyResolver::new();
    let root = root_package(&requests(&[("chai", "^4.0.0")]), true);
    assert!(root.dependencies.is_empty());
    assert_eq!(root.dev_dependencies.len(), 1);
    let (tree, pending) = resolver.resolve_dependencies(&root, &registry);
    assert!(pending.is_empty());
    assert_eq!(node_ids(&tree), vec!["chai@4.3.0".to_string()]);
}

#[test]
fn selection_prefers_highest_matching_version() {
    let (_, info) = record(
        "lodash",
        vec![
            version("4.17.20", &[]),
            version("4.17.21", &[]),
            version("3.10.1", &[]),
        ],
        &[("latest", "4.17.21"), ("old", "3.10.1")],
    );
    let info = info.unwrap();
    assert_eq!(
        select_version(&info, &"^4.17.0".to_string()),
        Some("4.17.21".to_string())
    );
    // a dist-tag is not a range: it resolves through the tags map
    assert_eq!(
        select_version(&info, &"old".to_string()),
        Some("3.10.1".to_string())
    );
    // an unparseable range that is no tag is read as the universal range
    assert_eq!(
        select_version(&info, &"not a range or tag".to_string()),
        Some("4.17.21".to_string())
    );
    // a range nothing matches selects nothing
    assert_eq!(select_version(&info, &"^99.0.0".to_string()), None);
}

#[test]
fn dedup_index_returns_highest_compatible() {
    let mut index = DependencyDeduplication::new();
    assert!(index.register_package(
        &"lib".to_string(),
        &"1.0.0".to_string(),
        &"^1.0.0".to_string()
    ));
    assert!(index.register_package(
        &"lib".to_string(),
        &"1.3.0".to_string(),
        &"^1.2.0".to_string()
    ));
    assert!(index.register_package(
        &"lib".to_string(),
        &"1.1.0".to_string(),
        &"^1.1.0".to_string()
    ));
    assert_eq!(
        index.find_compatible_version(&"lib".to_string(), &"^1.0.0".to_string()),
        Some("1.3.0".to_string())
    );
    assert_eq!(
        index.find_compatible_version(&"lib".to_string(), &"^2.0.0".to_string()),
        None
    );
    // an invalid version registers nothing
    assert!(!index.register_package(
        &"lib".to_string(),
        &"not-a-version".to_string(),
        &"*".to_string()
    ));
}

#[test]
fn resolver_knobs_are_clamped() {
    let resolver = DependencyResolver::new();
    assert_eq!(resolver.batch_size, 50);
    assert!(resolver.concurrency >= 1);
    let resolver = resolver.with_concurrency(0).with_batch_size(7);
    assert_eq!(resolver.concurrency, 1);
    assert_eq!(resolver.batch_size, 10);
    let resolver = resolver.with_concurrency(16).with_batch_size(400);
    assert_eq!(resolver.concurrency, 16);
    assert_eq!(resolver.batch_size, 100);
}

#[test]
fn work_queue_is_first_in_first_out() {
    let mut q = rjs::workq::queue_new();
    rjs::workq::queue_push(&mut q, "a".to_string(), "^1".to_string());
    rjs::workq::queue_push(&mut q, "b".to_string(), "^2".to_string());
    assert_eq!(
        rjs::workq::queue_pop(&mut q),
        Some(("a".to_string(), "^1".to_string()))
    );
    assert_eq!(
        rjs::workq::queue_pop(&mut q),
        Some(("b".to_string(), "^2".to_string()))
    );
    assert_eq!(rjs::workq::queue_pop(&mut q), None);
}
