//! Installation planning: what goes into the module tree, and the frozen
//! replay of a lockfile.
//!
//! The plan is pure: which directories to create (one per name, the
//! first resolved node of each), what minimal manifest to write in each,
//! and — in frozen mode — exactly which tarball URLs to download.  The
//! caller performs the filesystem and network work.

use vstd::prelude::*;
use crate::json::{quoted, str_map_text};
use crate::kv::{has_key, kv_get, value_of};
use crate::lockfile::Lockfile;
use crate::pkg::{clone_string_pairs, key_name, name_of_key, DependencyTree, Package};
use crate::registry::PackageInfo;
use crate::resolver::str_in;

verus! {

/// The minimal manifest written into an installed package's directory:
/// name, version and dependency map.
pub open spec fn pkg_manifest_text(
    name: Seq<char>,
    version: Seq<char>,
    deps: Seq<(String, String)>,
) -> Seq<char> {
    "{\"name\": "@ + quoted(name) + ", \"version\": "@ + quoted(version) + ", \"dependencies\": "@
        + str_map_text(deps) + seq!['}']
}

/// Renders the minimal manifest for one package.
pub fn package_manifest_text(pkg: &Package) -> (r: String)
    ensures
        r@ == pkg_manifest_text(pkg.name@, pkg.version@, pkg.dependencies@),
{
    let mut out = "{\"name\": ".to_owned();
    crate::json::append_quoted(&mut out, pkg.name.as_str());
    out.append(", \"version\": ");
    crate::json::append_quoted(&mut out, pkg.version.as_str());
    out.append(", \"dependencies\": ");
    crate::json::append_str_map(&mut out, &pkg.dependencies);
    crate::util::string_push_char(&mut out, '}');
    proof {
        assert(out@ =~= pkg_manifest_text(pkg.name@, pkg.version@, pkg.dependencies@));
    }
    out
}

/// Plan entry `m` carries some resolved node's name and minimal
/// manifest.
pub open spec fn plan_entry_ok(
    r: Seq<(String, String)>,
    nodes: Seq<(String, Package)>,
    m: int,
) -> bool {
    exists|i: int|
        0 <= i < nodes.len() && r[m].0@ == (#[trigger] nodes[i]).1.name@ && r[m].1@
            == pkg_manifest_text(nodes[i].1.name@, nodes[i].1.version@, nodes[i].1.dependencies@)
}

/// The node at index `i` has its name in the plan.
pub open spec fn node_planned(
    r: Seq<(String, String)>,
    nodes: Seq<(String, Package)>,
    i: int,
) -> bool {
    exists|m: int| 0 <= m < r.len() && (#[trigger] r[m]).0@ == nodes[i].1.name@
}

/// The flat install plan for a resolved tree: one (directory name,
/// manifest text) pair per distinct package name, taking each name's
/// first resolved node (the flat layout holds one version per name).
pub fn install_plan(tree: &DependencyTree) -> (r: Vec<(String, String)>)
    requires
        tree.wf(),
    ensures
        forall|m1: int, m2: int|
            0 <= m1 < m2 < r@.len() ==> (#[trigger] r@[m1]).0@ != (#[trigger] r@[m2]).0@,
        forall|m: int| 0 <= m < r@.len() ==> plan_entry_ok(r@, tree.dependencies@, m),
        forall|i: int|
            0 <= i < tree.dependencies@.len() ==> node_planned(r@, tree.dependencies@, i),
{
    let n = tree.dependencies.len();
    let mut taken: Vec<String> = Vec::new();
    let mut r: Vec<(String, String)> = Vec::new();
    let mut i: usize = 0;
    while i < n
        invariant
            n == tree.dependencies@.len(),
            tree.wf(),
            0 <= i <= n,
            taken@.len() == r@.len(),
            forall|m: int| 0 <= m < r@.len() ==> (#[trigger] r@[m]).0 == taken@[m],
            forall|m1: int, m2: int|
                0 <= m1 < m2 < r@.len() ==> (#[trigger] r@[m1]).0@ != (#[trigger] r@[m2]).0@,
            forall|m: int| 0 <= m < r@.len() ==> plan_entry_ok(r@, tree.dependencies@, m),
            forall|i2: int| 0 <= i2 < i ==> node_planned(r@, tree.dependencies@, i2),
        decreases n - i,
    {
        let node = &tree.dependencies[i].1;
        if !crate::resolver::str_list_contains(&taken, &node.name) {
            let ghost p0 = r@;
            let ghost t0 = taken@;
            let text = package_manifest_text(node);
            taken.push(node.name.clone());
            r.push((node.name.clone(), text));
            proof {
                assert(taken@ =~= t0.push(node.name));
                assert forall|m1: int, m2: int| 0 <= m1 < m2 < r@.len() implies (
                #[trigger] r@[m1]).0@ != (#[trigger] r@[m2]).0@ by {
                    if m2 == r@.len() - 1 {
                        assert(r@[m1] == p0[m1]);
                        assert(p0[m1].0 == t0[m1]);
                        assert((#[trigger] t0[m1])@ != node.name@);
                    } else {
                        assert(r@[m1] == p0[m1] && r@[m2] == p0[m2]);
                    }
                }
                assert forall|m: int| 0 <= m < r@.len() implies plan_entry_ok(
                    r@,
                    tree.dependencies@,
                    m,
                ) by {
                    if m < r@.len() - 1 {
                        assert(plan_entry_ok(p0, tree.dependencies@, m));
                        let w = choose|w: int|
                            0 <= w < tree.dependencies@.len() && p0[m].0@ == (
                            #[trigger] tree.dependencies@[w]).1.name@ && p0[m].1@
                                == pkg_manifest_text(
                                tree.dependencies@[w].1.name@,
                                tree.dependencies@[w].1.version@,
                                tree.dependencies@[w].1.dependencies@,
                            );
                        assert(r@[m] == p0[m]);
                        assert(r@[m].0@ == tree.dependencies@[w].1.name@);
                    } else {
                        assert(r@[m].0@ == (#[trigger] tree.dependencies@[i as int]).1.name@);
                    }
                }
                assert forall|i2: int| 0 <= i2 < i + 1 implies node_planned(
                    r@,
                    tree.dependencies@,
                    i2,
                ) by {
                    if i2 < i {
                        assert(node_planned(p0, tree.dependencies@, i2));
                        let m = choose|m: int|
                            0 <= m < p0.len() && (#[trigger] p0[m]).0@
                                == tree.dependencies@[i2].1.name@;
                        assert((r@[m]).0@ == tree.dependencies@[i2].1.name@);
                    } else {
                        assert((r@[r@.len() - 1]).0@ == tree.dependencies@[i2].1.name@);
                    }
                }
            }
        } else {
            proof {
                let ghost nm = node.name@;
                let m = choose|m: int| 0 <= m < taken@.len() && (#[trigger] taken@[m])@ == nm;
                assert((r@[m]).0@ == nm);
                assert forall|i2: int| 0 <= i2 < i + 1 implies node_planned(
                    r@,
                    tree.dependencies@,
                    i2,
                ) by {
                    if i2 == i {
                        assert((r@[m]).0@ == tree.dependencies@[i2].1.name@);
                    }
                }
            }
        }
        i = i + 1;
    }
    r
}

/// The descriptors recorded in a lockfile, for the frozen replay: one
/// per entry, the name read off the identity key, the version and
/// dependency map from the entry, and no development dependencies.
pub fn packages_from_lockfile(lockfile: &Lockfile) -> (r: Vec<Package>)
    requires
        lockfile.wf(),
    ensures
        r@.len() == lockfile.packages@.len(),
        forall|i: int|
            0 <= i < r@.len() ==> {
                let e = (#[trigger] lockfile.packages@[i]);
                (#[trigger] r@[i]).name@ == name_of_key(e.0@) && r@[i].version@ == e.1.version@
                    && r@[i].dependencies@ == e.1.dependencies@ && r@[i].dev_dependencies@
                    =~= Seq::<(String, String)>::empty() && r@[i].wf()
            },
{
    let n = lockfile.packages.len();
    let mut r: Vec<Package> = Vec::new();
    let mut i: usize = 0;
    while i < n
        invariant
            n == lockfile.packages@.len(),
            lockfile.wf(),
            0 <= i <= n,
            r@.len() == i,
            forall|m: int|
                0 <= m < i ==> {
                    let e = (#[trigger] lockfile.packages@[m]);
                    (#[trigger] r@[m]).name@ == name_of_key(e.0@) && r@[m].version@
                        == e.1.version@ && r@[m].dependencies@ == e.1.dependencies@
                        && r@[m].dev_dependencies@ =~= Seq::<(String, String)>::empty()
                        && r@[m].wf()
                },
        decreases n - i,
    {
        let entry = &lockfile.packages[i];
        let pkg = Package {
            name: key_name(&entry.0),
            version: entry.1.version.clone(),
            dependencies: clone_string_pairs(&entry.1.dependencies),
            dev_dependencies: Vec::new(),
        };
        r.push(pkg);
        i = i + 1;
    }
    r
}

/// The downloads of a frozen replay: for each lockfile entry, in order,
/// the package name and exactly the `resolved` URL the entry lists.  No
/// registry metadata is consulted.
pub fn lockfile_download_plan(lockfile: &Lockfile) -> (r: Vec<(String, Option<String>)>)
    ensures
        r@.len() == lockfile.packages@.len(),
        forall|i: int|
            0 <= i < r@.len() ==> {
                let e = (#[trigger] lockfile.packages@[i]);
                (#[trigger] r@[i]).0@ == name_of_key(e.0@) && r@[i].1 == e.1.resolved
            },
{
    let n = lockfile.packages.len();
    let mut r: Vec<(String, Option<String>)> = Vec::new();
    let mut i: usize = 0;
    while i < n
        invariant
            n == lockfile.packages@.len(),
            0 <= i <= n,
            r@.len() == i,
            forall|m: int|
                0 <= m < i ==> {
                    let e = (#[trigger] lockfile.packages@[m]);
                    (#[trigger] r@[m]).0@ == name_of_key(e.0@) && r@[m].1 == e.1.resolved
                },
        decreases n - i,
    {
        let entry = &lockfile.packages[i];
        let url = match &entry.1.resolved {
            Some(u) => Some(u.clone()),
            None => None,
        };
        r.push((key_name(&entry.0), url));
        i = i + 1;
    }
    r
}

/// The tarball URL the record lists for a version.
pub fn tarball_url_of(info: &PackageInfo, version: &String) -> (r: Option<String>)
    ensures
        match r {
            Some(u) => has_key(info.versions@, version@) && u@ == value_of(
                info.versions@,
                version@,
            ).dist.tarball@,
            None => !has_key(info.versions@, version@),
        },
{
    match kv_get(&info.versions, version) {
        Some(vi) => Some(vi.dist.tarball.clone()),
        None => None,
    }
}

} // verus!
