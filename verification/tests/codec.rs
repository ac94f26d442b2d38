use rjs::installer::{install_plan, lockfile_download_plan, package_manifest_text,
    packages_from_lockfile, tarball_url_of};
use rjs::json::Json;
use rjs::lockfile::{lockfile_from_json, Lockfile, LockfileError};
use rjs::manifest::{default_manifest, package_from_manifest, parse_package_spec, root_package,
    update_manifest};
use rjs::pkg::{key_name, make_key, DependencyTree, Package};
use rjs::registry::{DistInfo, PackageInfo, VersionInfo};
use rjs::util::{calculate_sha256, get_package_name_from_url};

fn pkg(name: &str, version: &str, deps: &[(&str, &str)]) -> Package {
    Package {
        name: name.to_string(),
        version: version.to_string(),
        dependencies: deps
            .iter()
            .map(|(n, r)| (n.to_string(), r.to_string()))
            .collect(),
        dev_dependencies: Vec::new(),
    }
}

fn value_to_json(v: &serde_json::Value) -> Json {
    match v {
        serde_json::Value::Null => Json::Null,
        serde_json::Value::Bool(b) => Json::Bool(*b),
        serde_json::Value::Number(n) => Json::Num(n.to_string()),
        serde_json::Value::String(s) => Json::Str(s.clone()),
        serde_json::Value::Array(items) => Json::Arr(items.iter().map(value_to_json).collect()),
        serde_json::Value::Object(fields) => Json::Obj(
            fields
                .iter()
                .map(|(k, v)| (k.clone(), value_to_json(v)))
                .collect(),
        ),
    }
}

#[test]
fn identity_keys_round_trip() {
    let key = make_key("@scope/pkg", "1.0.0");
    assert_eq!(key, "@scope/pkg@1.0.0");
    assert_eq!(key_name(&key), "@scope/pkg");
    assert_eq!(key_name(&"lodash@4.17.21".to_string()), "lodash");
}

#[test]
fn lockfile_records_entries() {
    let mut lockfile = Lockfile::new("p", "1.0.0");
    assert_eq!(lockfile.lockfile_version, "1.0.0");
    lockfile.add_package(&pkg("a", "1.2.0", &[("b", "^2.0.0")]), "https://r");
    assert_eq!(lockfile.packages.len(), 1);
    let (key, entry) = &lockfile.packages[0];
    assert_eq!(key, "a@1.2.0");
    assert_eq!(entry.version, "1.2.0");
    assert_eq!(entry.resolved, Some("https://r/a-1.2.0.tgz".to_string()));
    assert_eq!(
        entry.integrity,
        Some(format!("sha512-{}", hex::encode("a@1.2.0".as_bytes())))
    );
    assert_eq!(entry.dependencies, vec![
        ("b".to_string(), "^2.0.0".to_string())
    ]);
}

#[test]
fn lockfile_text_is_sorted_and_stable() {
    let mut l1 = Lockfile::new("p", "1.0.0");
    l1.add_package(&pkg("zeta", "2.0.0", &[]), "https://r");
    l1.add_package(&pkg("alpha", "1.0.0", &[("zeta", "^2.0.0")]), "https://r");
    let mut l2 = Lockfile::new("p", "1.0.0");
    l2.add_package(&pkg("alpha", "1.0.0", &[("zeta", "^2.0.0")]), "https://r");
    l2.add_package(&pkg("zeta", "2.0.0", &[]), "https://r");
    let t1 = l1.lockfile_text();
    let t2 = l2.lockfile_text();
    assert_eq!(t1, t2);
    assert!(t1.find("alpha@1.0.0").unwrap() < t1.find("zeta@2.0.0").unwrap());
    // the text is well-formed JSON with the expected top-level fields
    let parsed: serde_json::Value = serde_json::from_str(&t1).unwrap();
    assert_eq!(parsed["name"], "p");
    assert_eq!(parsed["version"], "1.0.0");
    assert_eq!(parsed["lockfile_version"], "1.0.0");
    assert!(parsed["packages"].get("alpha@1.0.0").is_some());
}

#[test]
fn lockfile_round_trips_through_text() {
    let mut lockfile = Lockfile::new("p", "1.0.0");
    lockfile.add_package(&pkg("a", "1.2.0", &[("b", "^2.0.0")]), "https://r");
    lockfile.add_package(&pkg("b", "2.3.1", &[]), "https://r");
    let text = lockfile.lockfile_text();
    let parsed: serde_json::Value = serde_json::from_str(&text).unwrap();
    let loaded = lockfile_from_json(&value_to_json(&parsed)).unwrap();
    assert_eq!(loaded.name, "p");
    assert_eq!(loaded.version, "1.0.0");
    assert_eq!(loaded.lockfile_version, "1.0.0");
    assert_eq!(loaded.packages.len(), 2);
    for (key, entry) in &lockfile.packages {
        let (_, loaded_entry) = loaded.packages.iter().find(|(k, _)| k == key).unwrap();
        assert_eq!(loaded_entry.version, entry.version);
        assert_eq!(loaded_entry.resolved, entry.resolved);
        assert_eq!(loaded_entry.integrity, entry.integrity);
        assert_eq!(loaded_entry.dependencies, entry.dependencies);
    }
}

#[test]
fn lockfile_json_round_trip() {
    let mut lockfile = Lockfile::new("p", "0.1.0");
    lockfile.add_package(&pkg("a", "1.0.0", &[("b", "^1.0.0")]), "https://r");
    let loaded = lockfile_from_json(&lockfile.lockfile_to_json()).unwrap();
    assert_eq!(loaded.name, lockfile.name);
    assert_eq!(loaded.packages.len(), 1);
    assert_eq!(loaded.packages[0].0, "a@1.0.0");
    assert_eq!(loaded.packages[0].1.dependencies, vec![
        ("b".to_string(), "^1.0.0".to_string())
    ]);
}

#[test]
fn malformed_lockfile_json_is_rejected() {
    match lockfile_from_json(&Json::Null) {
        Err(LockfileError::Schema) => {}
        _ => panic!("expected a schema error"),
    }
    // packages entries must be objects
    let bad = Json::Obj(vec![
        ("name".to_string(), Json::Str("p".to_string())),
        ("version".to_string(), Json::Str("1".to_string())),
        ("lockfile_version".to_string(), Json::Str("1".to_string())),
        (
            "packages".to_string(),
            Json::Obj(vec![("a@1".to_string(), Json::Null)]),
        ),
    ]);
    assert!(lockfile_from_json(&bad).is_err());
}

#[test]
fn frozen_replay_uses_exactly_the_recorded_urls() {
    let mut lockfile = Lockfile::new("p", "1.0.0");
    lockfile.add_package(&pkg("a", "1.2.0", &[("b", "^2.0.0")]), "https://r");
    lockfile.add_package(&pkg("b", "2.3.1", &[]), "https://r");
    let packages = packages_from_lockfile(&lockfile);
    assert_eq!(packages.len(), 2);
    assert_eq!(packages[0].name, "a");
    assert_eq!(packages[0].version, "1.2.0");
    assert_eq!(packages[0].dependencies, vec![
        ("b".to_string(), "^2.0.0".to_string())
    ]);
    let plan = lockfile_download_plan(&lockfile);
    assert_eq!(plan, vec![
        (
            "a".to_string(),
            Some("https://r/a-1.2.0.tgz".to_string())
        ),
        (
            "b".to_string(),
            Some("https://r/b-2.3.1.tgz".to_string())
        ),
    ]);
}

#[test]
fn install_plan_writes_one_manifest_per_name() {
    let a = pkg("a", "1.0.0", &[("lib", "^1.0.0")]);
    let tree = DependencyTree {
        root: pkg("root", "0.0.0", &[]),
        dependencies: vec![
            ("a@1.0.0".to_string(), a),
            ("lib@1.5.0".to_string(), pkg("lib", "1.5.0", &[])),
            ("lib@2.0.0".to_string(), pkg("lib", "2.0.0", &[])),
        ],
    };
    let plan = install_plan(&tree);
    let mut names: Vec<&String> = plan.iter().map(|(n, _)| n).collect();
    names.sort();
    assert_eq!(names, vec!["a", "lib"]);
    assert_eq!(
        package_manifest_text(&pkg("a", "1.0.0", &[("lib", "^1.0.0")])),
        "{\"name\": \"a\", \"version\": \"1.0.0\", \"dependencies\": {\"lib\": \"^1.0.0\"}}"
    );
}

#[test]
fn manifest_reading_and_updating() {
    let manifest = default_manifest("proj");
    let read = package_from_manifest(&manifest);
    assert_eq!(read.name, "proj");
    assert_eq!(read.version, "1.0.0");
    assert!(read.dependencies.is_empty());
    assert!(read.dev_dependencies.is_empty());
    // splice an install result in; unrelated fields survive
    let updated = update_manifest(
        manifest,
        &vec![("lodash".to_string(), "latest".to_string())],
        false,
    );
    let read = package_from_manifest(&updated);
    assert_eq!(read.dependencies, vec![
        ("lodash".to_string(), "latest".to_string())
    ]);
    assert_eq!(read.name, "proj");
    match &updated {
        Json::Obj(fields) => {
            assert!(fields.iter().any(|(k, _)| k == "license"));
        }
        _ => panic!("manifest must stay an object"),
    }
    // a development install lands in devDependencies
    let updated = update_manifest(
        updated,
        &vec![("chai".to_string(), "^4.0.0".to_string())],
        true,
    );
    let read = package_from_manifest(&updated);
    assert_eq!(read.dev_dependencies, vec![
        ("chai".to_string(), "^4.0.0".to_string())
    ]);
    assert_eq!(read.dependencies, vec![
        ("lodash".to_string(), "latest".to_string())
    ]);
}

#[test]
fn manifest_skips_non_string_dependency_values() {
    let manifest = Json::Obj(vec![
        ("name".to_string(), Json::Str("p".to_string())),
        (
            "dependencies".to_string(),
            Json::Obj(vec![
                ("good".to_string(), Json::Str("^1.0.0".to_string())),
                ("bad".to_string(), Json::Num("7".to_string())),
            ]),
        ),
    ]);
    let read = package_from_manifest(&manifest);
    assert_eq!(read.name, "p");
    assert_eq!(read.version, "0.0.0");
    assert_eq!(read.dependencies, vec![
        ("good".to_string(), "^1.0.0".to_string())
    ]);
}

#[test]
fn package_specs_split_at_the_first_marker() {
    let parse = |s: &str| parse_package_spec(&s.to_string());
    assert_eq!(parse("lodash"), ("lodash".to_string(), "latest".to_string()));
    assert_eq!(
        parse("lodash@^4.0.0"),
        ("lodash".to_string(), "^4.0.0".to_string())
    );
    assert_eq!(
        parse("@scope/pkg"),
        ("@scope/pkg".to_string(), "latest".to_string())
    );
    assert_eq!(
        parse("a@1.0.0@x"),
        ("a".to_string(), "1.0.0@x".to_string())
    );
}

#[test]
fn root_package_routes_requests() {
    let reqs = vec![
        ("a".to_string(), "^1".to_string()),
        ("a".to_string(), "^2".to_string()),
        ("b".to_string(), "*".to_string()),
    ];
    let root = root_package(&reqs, false);
    assert_eq!(root.name, "root");
    assert_eq!(root.version, "0.0.0");
    // a later request for the same name overrides the earlier one
    assert_eq!(root.dependencies, vec![
        ("a".to_string(), "^2".to_string()),
        ("b".to_string(), "*".to_string()),
    ]);
    assert!(root.dev_dependencies.is_empty());
}

#[test]
fn sha256_digest_text_is_exact() {
    assert_eq!(
        calculate_sha256(b""),
        "e3b0c44298fc1c149afbf4c8996fb92427ae41e4649b934ca495991b7852b855"
    );
    assert_eq!(
        calculate_sha256(b"abc"),
        "ba7816bf8f01cfea414140de5dae2223b00361a396177a9cb410ff61f20015ad"
    );
}

#[test]
fn package_names_come_off_tarball_urls() {
    assert_eq!(
        get_package_name_from_url(
            &"https://registry.npmjs.org/lodash/-/lodash-4.17.21.tgz".to_string()
        ),
        Some("lodash-4.17.21".to_string())
    );
    assert_eq!(get_package_name_from_url(&"not a url".to_string()), None);
}

#[test]
fn tarball_urls_come_from_the_record() {
    let info = PackageInfo {
        name: "a".to_string(),
        versions: vec![(
            "1.0.0".to_string(),
            VersionInfo {
                version: "1.0.0".to_string(),
                dependencies: Vec::new(),
                dev_dependencies: Vec::new(),
                dist: DistInfo {
                    shasum: "abc".to_string(),
                    tarball: "https://r/a-1.0.0.tgz".to_string(),
                },
            },
        )],
        dist_tags: Vec::new(),
    };
    assert_eq!(
        tarball_url_of(&info, &"1.0.0".to_string()),
        Some("https://r/a-1.0.0.tgz".to_string())
    );
    assert_eq!(tarball_url_of(&info, &"2.0.0".to_string()), None);
}
