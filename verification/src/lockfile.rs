//! The lockfile: the on-disk snapshot of a resolved graph.
//!
//! One entry per resolved node, keyed `<name>@<exact-version>`, carrying
//! the exact version, a resolved tarball URL, an integrity field and the
//! node's dependency map.  Writing renders the package map with its keys
//! in lexicographic order, so equivalent resolves produce byte-identical
//! lockfiles.

use vstd::prelude::*;
use crate::json::Json;
use crate::kv::{distinct_keys, has_key, kv_set, lemma_value_of_distinct, value_of};
use crate::pkg::{clone_string_pairs, make_key, pkg_key, DependencyTree, Package};
use crate::util::{hex_encode, hex_of};

verus! {

/// One resolved package, as recorded in the lockfile.
pub struct LockfileEntry {
    pub version: String,
    pub resolved: Option<String>,
    pub integrity: Option<String>,
    pub dependencies: Vec<(String, String)>,
}

impl LockfileEntry {
    /// The dependency map binds each name once.
    pub open spec fn wf(&self) -> bool {
        distinct_keys(self.dependencies@)
    }
}

/// The lockfile: project identity, format version, and the package map.
pub struct Lockfile {
    pub name: String,
    pub version: String,
    pub lockfile_version: String,
    pub packages: Vec<(String, LockfileEntry)>,
}

impl Lockfile {
    /// Keys are distinct and entries well formed.
    pub open spec fn wf(&self) -> bool {
        &&& distinct_keys(self.packages@)
        &&& forall|i: int| 0 <= i < self.packages@.len() ==> (#[trigger] self.packages@[i]).1.wf()
    }

    /// An empty lockfile for the project, at lockfile format 1.0.0.
    pub fn new(name: &str, version: &str) -> (r: Self)
        ensures
            r.wf(),
            r.name@ == name@,
            r.version@ == version@,
            r.lockfile_version@ == "1.0.0"@,
            r.packages@.len() == 0,
    {
        Lockfile {
            name: name.to_owned(),
            version: version.to_owned(),
            lockfile_version: "1.0.0".to_owned(),
            packages: Vec::new(),
        }
    }
}

/// The synthesized tarball URL recorded for a package:
/// `<registry>/<name>-<version>.tgz`.
pub open spec fn resolved_url(registry: Seq<char>, name: Seq<char>, version: Seq<char>) -> Seq<
    char,
> {
    registry + seq!['/'] + name + seq!['-'] + version + seq!['.', 't', 'g', 'z']
}

/// The integrity placeholder recorded for a package: `sha512-` followed
/// by the hex of the identity key's bytes (presence, not verification,
/// is the wire contract).
pub open spec fn integrity_of(key: Seq<char>) -> Seq<char> {
    seq!['s', 'h', 'a', '5', '1', '2', '-'] + hex_of(vstd::utf8::encode_utf8(key))
}

/// The entry recorded for a package descriptor.
pub open spec fn entry_for(e: LockfileEntry, pkg: PackageV0, registry: Seq<char>) -> bool {
    &&& e.version@ == pkg.version
    &&& e.dependencies@ == pkg.dependencies
    &&& e.resolved matches Some(u) && u@ == resolved_url(registry, pkg.name, pkg.version)
    &&& e.integrity matches Some(ig) && ig@ == integrity_of(pkg_key(pkg.name, pkg.version))
}

/// The fields of a descriptor that the lockfile records.
pub ghost struct PackageV0 {
    pub name: Seq<char>,
    pub version: Seq<char>,
    pub dependencies: Seq<(String, String)>,
}

/// The recorded fields of a package.
pub open spec fn pkg_v0(pkg: Package) -> PackageV0 {
    PackageV0 { name: pkg.name@, version: pkg.version@, dependencies: pkg.dependencies@ }
}

impl Lockfile {
    /// Records `pkg` under its identity key: exact version, synthesized
    /// tarball URL under `registry`, integrity placeholder, and the
    /// dependency map verbatim.
    pub fn add_package(&mut self, pkg: &Package, registry: &str)
        requires
            old(self).wf(),
            pkg.wf(),
        ensures
            final(self).wf(),
            final(self).name == old(self).name,
            final(self).version == old(self).version,
            final(self).lockfile_version == old(self).lockfile_version,
            has_key(final(self).packages@, pkg_key(pkg.name@, pkg.version@)),
            entry_for(
                value_of(final(self).packages@, pkg_key(pkg.name@, pkg.version@)),
                pkg_v0(*pkg),
                registry@,
            ),
            forall|q: Seq<char>|
                #[trigger] has_key(final(self).packages@, q) <==> (q == pkg_key(
                    pkg.name@,
                    pkg.version@,
                ) || has_key(old(self).packages@, q)),
            forall|q: Seq<char>|
                q != pkg_key(pkg.name@, pkg.version@) && #[trigger] has_key(
                    old(self).packages@,
                    q,
                ) ==> value_of(final(self).packages@, q) == value_of(old(self).packages@, q),
    {
        let key = make_key(pkg.name.as_str(), pkg.version.as_str());
        let mut url = registry.to_owned();
        url.append("/");
        url.append(pkg.name.as_str());
        url.append("-");
        url.append(pkg.version.as_str());
        url.append(".tgz");
        proof {
            reveal_strlit("/");
            reveal_strlit("-");
            reveal_strlit(".tgz");
            assert(url@ =~= resolved_url(registry@, pkg.name@, pkg.version@));
        }
        let hex_text = hex_encode(key.as_str().as_bytes());
        let mut integrity = "sha512-".to_owned();
        integrity.append(hex_text.as_str());
        proof {
            reveal_strlit("sha512-");
            assert(integrity@ =~= integrity_of(key@));
        }
        let entry = LockfileEntry {
            version: pkg.version.clone(),
            resolved: Some(url),
            integrity: Some(integrity),
            dependencies: clone_string_pairs(&pkg.dependencies),
        };
        let ghost olds = self.packages@;
        kv_set(&mut self.packages, key, entry);
        proof {
            assert forall|i: int| 0 <= i < self.packages@.len() implies (
            #[trigger] self.packages@[i]).1.wf() by {
                let e = self.packages@[i];
                lemma_value_of_distinct(self.packages@, e.0@, i);
                if e.0@ != pkg_key(pkg.name@, pkg.version@) {
                    let m = choose|m: int|
                        0 <= m < olds.len() && (#[trigger] olds[m]).0@ == e.0@;
                    lemma_value_of_distinct(olds, e.0@, m);
                }
            }
        }
    }
}

impl crate::resolver::DependencyResolver {
    /// Builds the lockfile for a resolved tree: the root's identity,
    /// format 1.0.0, and one entry per resolved node, keyed by the
    /// node's identity and recording its version, synthesized URL under
    /// `registry_url`, integrity placeholder and dependency map.
    pub fn generate_lockfile(&self, tree: &DependencyTree, registry_url: &str) -> (r: Lockfile)
        requires
            tree.wf(),
        ensures
            r.wf(),
            r.name@ == tree.root.name@,
            r.version@ == tree.root.version@,
            r.lockfile_version@ == "1.0.0"@,
            forall|k: Seq<char>|
                #[trigger] has_key(r.packages@, k) <==> has_key(tree.dependencies@, k),
            forall|k: Seq<char>|
                #[trigger] has_key(tree.dependencies@, k) ==> entry_for(
                    value_of(r.packages@, k),
                    pkg_v0(value_of(tree.dependencies@, k)),
                    registry_url@,
                ),
    {
        let mut lockfile = Lockfile::new(tree.root.name.as_str(), tree.root.version.as_str());
        let n = tree.dependencies.len();
        let mut i: usize = 0;
        while i < n
            invariant
                n == tree.dependencies@.len(),
                0 <= i <= n,
                tree.wf(),
                lockfile.wf(),
                lockfile.name@ == tree.root.name@,
                lockfile.version@ == tree.root.version@,
                lockfile.lockfile_version@ == "1.0.0"@,
                forall|k: Seq<char>|
                    #[trigger] has_key(lockfile.packages@, k) <==> (exists|m: int|
                        0 <= m < i && (#[trigger] tree.dependencies@[m]).0@ == k),
                forall|k: Seq<char>|
                    #[trigger] has_key(lockfile.packages@, k) ==> entry_for(
                        value_of(lockfile.packages@, k),
                        pkg_v0(value_of(tree.dependencies@, k)),
                        registry_url@,
                    ),
            decreases n - i,
        {
            proof {
                crate::pkg::lemma_node_entry(tree.dependencies@, i as int);
            }
            let ghost before = lockfile.packages@;
            lockfile.add_package(&tree.dependencies[i].1, registry_url);
            proof {
                let node = tree.dependencies@[i as int];
                assert(node.0@ == pkg_key(node.1.name@, node.1.version@));
                assert forall|k: Seq<char>| #[trigger] has_key(lockfile.packages@, k) implies (
                exists|m: int| 0 <= m <= i && (#[trigger] tree.dependencies@[m]).0@ == k) by {
                    if k == node.0@ {
                        assert(tree.dependencies@[i as int].0@ == k);
                    } else {
                        assert(has_key(before, k));
                    }
                }
                assert forall|k: Seq<char>| #[trigger] has_key(lockfile.packages@, k) implies
                    entry_for(
                    value_of(lockfile.packages@, k),
                    pkg_v0(value_of(tree.dependencies@, k)),
                    registry_url@,
                ) by {
                    if k == node.0@ {
                        assert(value_of(tree.dependencies@, k) == node.1);
                    } else {
                        assert(has_key(before, k));
                        assert(value_of(lockfile.packages@, k) == value_of(before, k));
                    }
                }
            }
            i = i + 1;
        }
        proof {
            assert forall|k: Seq<char>| #[trigger] has_key(tree.dependencies@, k) implies
                has_key(lockfile.packages@, k) by {
                let m = choose|m: int|
                    0 <= m < tree.dependencies@.len() && (#[trigger] tree.dependencies@[m]).0@
                        == k;
            }
        }
        lockfile
    }
}

} // verus!

verus! {

/// Lexicographic order on text, by character code.
pub open spec fn lex_le(a: Seq<char>, b: Seq<char>) -> bool
    decreases a.len(),
{
    if a.len() == 0 {
        true
    } else if b.len() == 0 {
        false
    } else if a[0] != b[0] {
        (a[0] as int) < (b[0] as int)
    } else {
        lex_le(a.drop_first(), b.drop_first())
    }
}

/// The order is total.
proof fn lemma_lex_total(a: Seq<char>, b: Seq<char>)
    ensures
        lex_le(a, b) || lex_le(b, a),
    decreases a.len(),
{
    if a.len() > 0 && b.len() > 0 && a[0] == b[0] {
        lemma_lex_total(a.drop_first(), b.drop_first());
    }
}

/// The order is antisymmetric.
proof fn lemma_lex_antisym(a: Seq<char>, b: Seq<char>)
    requires
        lex_le(a, b),
        lex_le(b, a),
    ensures
        a == b,
    decreases a.len(),
{
    if a.len() == 0 {
        assert(b.len() == 0);
        assert(a =~= b);
    } else {
        assert(b.len() > 0);
        assert(a[0] == b[0]);
        lemma_lex_antisym(a.drop_first(), b.drop_first());
        assert(a =~= seq![a[0]] + a.drop_first());
        assert(b =~= seq![b[0]] + b.drop_first());
        assert(a =~= b);
    }
}

/// The order is transitive.
proof fn lemma_lex_trans(a: Seq<char>, b: Seq<char>, c: Seq<char>)
    requires
        lex_le(a, b),
        lex_le(b, c),
    ensures
        lex_le(a, c),
    decreases a.len(),
{
    if a.len() > 0 {
        assert(b.len() > 0);
        assert(c.len() > 0);
        if a[0] == b[0] && b[0] == c[0] {
            lemma_lex_trans(a.drop_first(), b.drop_first(), c.drop_first());
        }
    }
}

/// Comparing equal prefixes reduces the order to the suffixes.
proof fn lemma_lex_skip(a: Seq<char>, b: Seq<char>, i: int)
    requires
        0 <= i <= a.len(),
        i <= b.len(),
        forall|m: int| 0 <= m < i ==> a[m] == b[m],
    ensures
        lex_le(a, b) == lex_le(a.skip(i), b.skip(i)),
    decreases i,
{
    if i == 0 {
        assert(a.skip(0) =~= a);
        assert(b.skip(0) =~= b);
    } else {
        assert(a.len() > 0 && b.len() > 0 && a[0] == b[0]);
        assert(a.drop_first() =~= a.skip(1));
        assert(b.drop_first() =~= b.skip(1));
        lemma_lex_skip(a.skip(1), b.skip(1), i - 1);
        assert(a.skip(1).skip(i - 1) =~= a.skip(i));
        assert(b.skip(1).skip(i - 1) =~= b.skip(i));
    }
}

/// Whether `a` is at or before `b` in lexicographic order.
fn str_lex_le(a: &str, b: &str) -> (r: bool)
    ensures
        r == lex_le(a@, b@),
{
    let an = a.unicode_len();
    let bn = b.unicode_len();
    let mut i: usize = 0;
    while i < an && i < bn
        invariant
            an == a@.len(),
            bn == b@.len(),
            0 <= i <= an,
            i <= bn,
            forall|m: int| 0 <= m < i ==> a@[m] == b@[m],
        decreases an - i,
    {
        let ca = a.get_char(i);
        let cb = b.get_char(i);
        if ca != cb {
            proof {
                lemma_lex_skip(a@, b@, i as int);
                assert(a@.skip(i as int)[0] == a@[i as int]);
                assert(b@.skip(i as int)[0] == b@[i as int]);
            }
            return (ca as u32) < (cb as u32);
        }
        i = i + 1;
    }
    proof {
        lemma_lex_skip(a@, b@, i as int);
    }
    an <= bn
}

/// Entries carry the same recorded content.
pub open spec fn entry_eqv(a: LockfileEntry, b: LockfileEntry) -> bool {
    &&& a.version@ == b.version@
    &&& match (a.resolved, b.resolved) {
        (Some(x), Some(y)) => x@ == y@,
        (None, None) => true,
        _ => false,
    }
    &&& match (a.integrity, b.integrity) {
        (Some(x), Some(y)) => x@ == y@,
        (None, None) => true,
        _ => false,
    }
    &&& a.dependencies@ == b.dependencies@
}

/// Keys appear in lexicographic order.
pub open spec fn sorted_keys(s: Seq<(String, LockfileEntry)>) -> bool {
    forall|i: int, j: int|
        0 <= i < j < s.len() ==> lex_le((#[trigger] s[i]).0@, (#[trigger] s[j]).0@)
}

/// Copies one entry.
fn clone_entry(e: &LockfileEntry) -> (r: LockfileEntry)
    ensures
        r.version == e.version,
        r.resolved == e.resolved,
        r.integrity == e.integrity,
        r.dependencies@ == e.dependencies@,
        entry_eqv(r, *e),
{
    LockfileEntry {
        version: e.version.clone(),
        resolved: match &e.resolved {
            Some(u) => Some(u.clone()),
            None => None,
        },
        integrity: match &e.integrity {
            Some(u) => Some(u.clone()),
            None => None,
        },
        dependencies: clone_string_pairs(&e.dependencies),
    }
}

/// The first position whose key is at or after `key`; everything before
/// is strictly before `key`.
fn sort_find_pos(r: &Vec<(String, LockfileEntry)>, key: &String) -> (k: usize)
    ensures
        k <= r@.len(),
        forall|m: int|
            0 <= m < k ==> !lex_le(key@, (#[trigger] r@[m]).0@) && lex_le(r@[m].0@, key@),
        k < r@.len() ==> lex_le(key@, r@[k as int].0@),
{
    let n = r.len();
    let mut k: usize = 0;
    while k < n
        invariant
            n == r@.len(),
            0 <= k <= n,
            forall|m: int|
                0 <= m < k ==> !lex_le(key@, (#[trigger] r@[m]).0@) && lex_le(r@[m].0@, key@),
        decreases n - k,
    {
        if str_lex_le(key.as_str(), r[k].0.as_str()) {
            return k;
        }
        proof {
            lemma_lex_total(key@, r@[k as int].0@);
        }
        k = k + 1;
    }
    k
}

/// The package list, re-ordered with its keys ascending; the recorded
/// map is unchanged.
fn sort_packages(v: &Vec<(String, LockfileEntry)>) -> (r: Vec<(String, LockfileEntry)>)
    requires
        distinct_keys(v@),
    ensures
        sorted_keys(r@),
        distinct_keys(r@),
        forall|q: Seq<char>| #[trigger] has_key(r@, q) <==> has_key(v@, q),
        forall|q: Seq<char>|
            #[trigger] has_key(v@, q) ==> entry_eqv(value_of(r@, q), value_of(v@, q)),
{
    let n = v.len();
    let mut r: Vec<(String, LockfileEntry)> = Vec::new();
    let mut i: usize = 0;
    while i < n
        invariant
            n == v@.len(),
            distinct_keys(v@),
            0 <= i <= n,
            sorted_keys(r@),
            distinct_keys(r@),
            forall|q: Seq<char>|
                #[trigger] has_key(r@, q) <==> (exists|m: int|
                    0 <= m < i && (#[trigger] v@[m]).0@ == q),
            forall|q: Seq<char>|
                #[trigger] has_key(r@, q) ==> entry_eqv(value_of(r@, q), value_of(v@, q)),
        decreases n - i,
    {
        let key = v[i].0.clone();
        let entry = clone_entry(&v[i].1);
        let ghost r0 = r@;
        proof {
            if has_key(r0, key@) {
                let m = choose|m: int| 0 <= m < i && (#[trigger] v@[m]).0@ == key@;
                assert(v@[m].0@ != v@[i as int].0@);
                assert(false);
            }
        }
        let k = sort_find_pos(&r, &key);
        let ghost keyv = key@;
        let ghost entv = entry;
        r.insert(k, (key, entry));
        proof {
            assert(r@ == r0.insert(k as int, (v@[i as int].0, entv)));
            let x = r@[k as int];
            assert(x.0@ == keyv);
            assert forall|a2: int, b2: int| 0 <= a2 < b2 < r@.len() implies lex_le(
                (#[trigger] r@[a2]).0@,
                (#[trigger] r@[b2]).0@,
            ) by {
                if b2 < k {
                    assert(r@[a2] == r0[a2] && r@[b2] == r0[b2]);
                } else if a2 > k {
                    assert(r@[a2] == r0[a2 - 1] && r@[b2] == r0[b2 - 1]);
                } else if a2 < k && b2 == k {
                    assert(r@[a2] == r0[a2]);
                    assert(lex_le(r0[a2].0@, keyv));
                } else if a2 < k && b2 > k {
                    assert(r@[a2] == r0[a2] && r@[b2] == r0[b2 - 1]);
                } else if a2 == k && b2 > k {
                    assert(r@[b2] == r0[b2 - 1]);
                    if b2 - 1 >= k && k < r0.len() {
                        assert(lex_le(keyv, r0[k as int].0@));
                        if b2 - 1 > k {
                            assert(lex_le(r0[k as int].0@, r0[b2 - 1].0@));
                            lemma_lex_trans(keyv, r0[k as int].0@, r0[b2 - 1].0@);
                        }
                    }
                }
            }
            assert forall|a2: int, b2: int| 0 <= a2 < b2 < r@.len() implies (
            #[trigger] r@[a2]).0@ != (#[trigger] r@[b2]).0@ by {
                if b2 < k {
                    assert(r@[a2] == r0[a2] && r@[b2] == r0[b2]);
                } else if a2 > k {
                    assert(r@[a2] == r0[a2 - 1] && r@[b2] == r0[b2 - 1]);
                } else if a2 < k && b2 == k {
                    assert(r@[a2] == r0[a2]);
                    assert(has_key(r0, r0[a2].0@));
                } else if a2 < k && b2 > k {
                    assert(r@[a2] == r0[a2] && r@[b2] == r0[b2 - 1]);
                } else if a2 == k && b2 > k {
                    assert(r@[b2] == r0[b2 - 1]);
                    assert(has_key(r0, r0[b2 - 1].0@));
                }
            }
            assert forall|q: Seq<char>| #[trigger] has_key(r@, q) implies (exists|m: int|
                0 <= m <= i && (#[trigger] v@[m]).0@ == q) by {
                let m2 = choose|m2: int| 0 <= m2 < r@.len() && (#[trigger] r@[m2]).0@ == q;
                if m2 < k {
                    assert(r@[m2] == r0[m2]);
                    assert(has_key(r0, q));
                } else if m2 > k {
                    assert(r@[m2] == r0[m2 - 1]);
                    assert(has_key(r0, q));
                } else {
                    assert(v@[i as int].0@ == q);
                }
            }
            assert forall|q: Seq<char>| (exists|m: int|
                0 <= m <= i && (#[trigger] v@[m]).0@ == q) implies #[trigger] has_key(
                r@,
                q,
            ) by {
                let m = choose|m: int| 0 <= m <= i && (#[trigger] v@[m]).0@ == q;
                if m < i {
                    assert(has_key(r0, q));
                    let m2 = choose|m2: int|
                        0 <= m2 < r0.len() && (#[trigger] r0[m2]).0@ == q;
                    if m2 < k {
                        assert(r@[m2].0@ == q);
                    } else {
                        assert(r@[m2 + 1].0@ == q);
                    }
                } else {
                    assert(r@[k as int].0@ == q);
                }
            }
            assert forall|q: Seq<char>| #[trigger] has_key(r@, q) implies entry_eqv(
                value_of(r@, q),
                value_of(v@, q),
            ) by {
                let m2 = choose|m2: int| 0 <= m2 < r@.len() && (#[trigger] r@[m2]).0@ == q;
                lemma_value_of_distinct(r@, q, m2);
                if m2 < k {
                    assert(r@[m2] == r0[m2]);
                    lemma_value_of_distinct(r0, q, m2);
                    assert(has_key(r0, q));
                } else if m2 > k {
                    assert(r@[m2] == r0[m2 - 1]);
                    lemma_value_of_distinct(r0, q, m2 - 1);
                    assert(has_key(r0, q));
                } else {
                    assert(value_of(r@, q) == entv);
                    lemma_value_of_distinct(v@, q, i as int);
                }
            }
        }
        i = i + 1;
    }
    proof {
        assert forall|q: Seq<char>| #[trigger] has_key(v@, q) implies has_key(r@, q) by {
            let m = choose|m: int| 0 <= m < v@.len() && (#[trigger] v@[m]).0@ == q;
        }
    }
    r
}

} // verus!

verus! {

/// The text of an optional string field: a string literal or `null`.
pub open spec fn opt_str_text(o: Option<String>) -> Seq<char> {
    match o {
        Some(u) => crate::json::quoted(u@),
        None => seq!['n', 'u', 'l', 'l'],
    }
}

/// The rendered text of one package entry.
pub open spec fn entry_text(key: Seq<char>, e: LockfileEntry) -> Seq<char> {
    crate::json::quoted(key) + ": {\"version\": "@ + crate::json::quoted(e.version@)
        + ", \"resolved\": "@ + opt_str_text(e.resolved) + ", \"integrity\": "@ + opt_str_text(
        e.integrity,
    ) + ", \"dependencies\": "@ + crate::json::str_map_text(e.dependencies@) + seq!['}']
}

/// The rendered body of the package map, in list order.
pub open spec fn packages_body(s: Seq<(String, LockfileEntry)>) -> Seq<char>
    decreases s.len(),
{
    if s.len() == 0 {
        Seq::empty()
    } else if s.len() == 1 {
        entry_text(s[0].0@, s[0].1)
    } else {
        entry_text(s[0].0@, s[0].1) + seq![',', ' '] + packages_body(s.drop_first())
    }
}

/// The full lockfile text, with the given package order.
pub open spec fn lockfile_text_with(
    name: Seq<char>,
    version: Seq<char>,
    lockfile_version: Seq<char>,
    pkgs: Seq<(String, LockfileEntry)>,
) -> Seq<char> {
    "{\"name\": "@ + crate::json::quoted(name) + ", \"version\": "@ + crate::json::quoted(version)
        + ", \"lockfile_version\": "@ + crate::json::quoted(lockfile_version)
        + ", \"packages\": {"@ + packages_body(pkgs) + "}}"@
}

/// The body grows by one rendered entry.
proof fn lemma_packages_body_push(s: Seq<(String, LockfileEntry)>, p: (String, LockfileEntry))
    ensures
        packages_body(s.push(p)) == if s.len() == 0 {
            entry_text(p.0@, p.1)
        } else {
            packages_body(s) + seq![',', ' '] + entry_text(p.0@, p.1)
        },
    decreases s.len(),
{
    if s.len() == 0 {
        assert(s.push(p)[0] == p);
        assert(packages_body(s.push(p)) =~= entry_text(p.0@, p.1));
    } else {
        assert(s.push(p).drop_first() =~= s.drop_first().push(p));
        lemma_packages_body_push(s.drop_first(), p);
        if s.len() == 1 {
            assert(packages_body(s.push(p)) =~= packages_body(s) + seq![',', ' ']
                + entry_text(p.0@, p.1));
        } else {
            assert(packages_body(s.push(p)) =~= packages_body(s) + seq![',', ' ']
                + entry_text(p.0@, p.1));
        }
    }
}

/// Appends the rendered entry to `out`.
fn append_entry(out: &mut String, key: &String, e: &LockfileEntry)
    ensures
        final(out)@ == old(out)@ + entry_text(key@, *e),
{
    crate::json::append_quoted(out, key.as_str());
    out.append(": {\"version\": ");
    crate::json::append_quoted(out, e.version.as_str());
    out.append(", \"resolved\": ");
    match &e.resolved {
        Some(u) => crate::json::append_quoted(out, u.as_str()),
        None => out.append("null"),
    }
    out.append(", \"integrity\": ");
    match &e.integrity {
        Some(u) => crate::json::append_quoted(out, u.as_str()),
        None => out.append("null"),
    }
    out.append(", \"dependencies\": ");
    crate::json::append_str_map(out, &e.dependencies);
    crate::util::string_push_char(out, '}');
    proof {
        reveal_strlit("null");
        assert("null"@ =~= seq!['n', 'u', 'l', 'l']);
        assert(out@ =~= old(out)@ + entry_text(key@, *e));
    }
}

impl Lockfile {
    /// Serializes the lockfile as JSON text, the package map ordered by
    /// key: a stable rendering, so lockfiles recording the same map come
    /// out byte-identical (see `lemma_lockfile_text_deterministic`).
    pub fn lockfile_text(&self) -> (r: String)
        requires
            self.wf(),
        ensures
            exists|s: Seq<(String, LockfileEntry)>|
                sorted_keys(s) && distinct_keys(s) && (forall|q: Seq<char>|
                    #[trigger] has_key(s, q) <==> has_key(self.packages@, q)) && (forall|
                    q: Seq<char>,
                |
                    #[trigger] has_key(s, q) ==> entry_eqv(
                        value_of(s, q),
                        value_of(self.packages@, q),
                    )) && r@ == lockfile_text_with(
                    self.name@,
                    self.version@,
                    self.lockfile_version@,
                    s,
                ),
    {
        let sorted = sort_packages(&self.packages);
        let mut out = "{\"name\": ".to_owned();
        crate::json::append_quoted(&mut out, self.name.as_str());
        out.append(", \"version\": ");
        crate::json::append_quoted(&mut out, self.version.as_str());
        out.append(", \"lockfile_version\": ");
        crate::json::append_quoted(&mut out, self.lockfile_version.as_str());
        out.append(", \"packages\": {");
        let ghost prefix = out@;
        let n = sorted.len();
        let mut i: usize = 0;
        proof {
            assert(sorted@.subrange(0, 0) =~= Seq::<(String, LockfileEntry)>::empty());
            assert(out@ =~= prefix + packages_body(sorted@.subrange(0, 0)));
        }
        while i < n
            invariant
                n == sorted@.len(),
                0 <= i <= n,
                out@ == prefix + packages_body(sorted@.subrange(0, i as int)),
            decreases n - i,
        {
            if i > 0 {
                crate::util::string_push_char(&mut out, ',');
                crate::util::string_push_char(&mut out, ' ');
            }
            append_entry(&mut out, &sorted[i].0, &sorted[i].1);
            proof {
                assert(sorted@.subrange(0, i + 1 as int) =~= sorted@.subrange(0, i as int).push(
                    sorted@[i as int],
                ));
                lemma_packages_body_push(sorted@.subrange(0, i as int), sorted@[i as int]);
                assert(out@ =~= prefix + packages_body(sorted@.subrange(0, i + 1 as int)));
            }
            i = i + 1;
        }
        out.append("}}");
        proof {
            assert(sorted@.subrange(0, n as int) =~= sorted@);
            assert(out@ =~= lockfile_text_with(
                self.name@,
                self.version@,
                self.lockfile_version@,
                sorted@,
            ));
        }
        out
    }
}

/// Two sorted package lists recording the same map agree position by
/// position.
proof fn lemma_sorted_packages_unique(
    s1: Seq<(String, LockfileEntry)>,
    s2: Seq<(String, LockfileEntry)>,
)
    requires
        sorted_keys(s1),
        sorted_keys(s2),
        distinct_keys(s1),
        distinct_keys(s2),
        forall|q: Seq<char>| #[trigger] has_key(s1, q) <==> has_key(s2, q),
        forall|q: Seq<char>|
            #[trigger] has_key(s1, q) ==> entry_eqv(value_of(s1, q), value_of(s2, q)),
    ensures
        s1.len() == s2.len(),
        forall|i: int|
            0 <= i < s1.len() ==> (#[trigger] s1[i]).0@ == s2[i].0@ && entry_eqv(
                s1[i].1,
                s2[i].1,
            ),
    decreases s1.len(),
{
    if s1.len() == 0 {
        if s2.len() > 0 {
            assert(has_key(s2, s2[0].0@));
            assert(has_key(s1, s2[0].0@));
            assert(false);
        }
    } else {
        assert(has_key(s1, s1[0].0@));
        assert(has_key(s2, s1[0].0@));
        if s2.len() == 0 {
            assert(false);
        }
        let m = choose|m: int| 0 <= m < s2.len() && (#[trigger] s2[m]).0@ == s1[0].0@;
        assert(lex_le(s2[0].0@, s2[m].0@)) by {
            if m > 0 {
            } else {
                lemma_lex_total(s2[0].0@, s2[0].0@);
            }
        }
        assert(has_key(s2, s2[0].0@));
        assert(has_key(s1, s2[0].0@));
        let m2 = choose|m2: int| 0 <= m2 < s1.len() && (#[trigger] s1[m2]).0@ == s2[0].0@;
        assert(lex_le(s1[0].0@, s1[m2].0@)) by {
            if m2 > 0 {
            } else {
                lemma_lex_total(s1[0].0@, s1[0].0@);
            }
        }
        lemma_lex_antisym(s1[0].0@, s2[0].0@);
        // the heads carry the same key, so the same entry
        lemma_value_of_distinct(s1, s1[0].0@, 0);
        lemma_value_of_distinct(s2, s1[0].0@, 0);
        assert(entry_eqv(s1[0].1, s2[0].1));
        // the tails record the same map
        let t1 = s1.drop_first();
        let t2 = s2.drop_first();
        assert forall|q: Seq<char>| #[trigger] has_key(t1, q) implies has_key(t2, q) by {
            let w = choose|w: int| 0 <= w < t1.len() && (#[trigger] t1[w]).0@ == q;
            assert(t1[w] == s1[w + 1]);
            assert(has_key(s1, q));
            assert(q != s1[0].0@);
            assert(has_key(s2, q));
            let w2 = choose|w2: int| 0 <= w2 < s2.len() && (#[trigger] s2[w2]).0@ == q;
            assert(w2 != 0);
            assert(t2[w2 - 1] == s2[w2]);
        }
        assert forall|q: Seq<char>| #[trigger] has_key(t2, q) implies has_key(t1, q) by {
            let w = choose|w: int| 0 <= w < t2.len() && (#[trigger] t2[w]).0@ == q;
            assert(t2[w] == s2[w + 1]);
            assert(has_key(s2, q));
            assert(q != s2[0].0@);
            assert(has_key(s1, q));
            let w2 = choose|w2: int| 0 <= w2 < s1.len() && (#[trigger] s1[w2]).0@ == q;
            assert(w2 != 0);
            assert(t1[w2 - 1] == s1[w2]);
        }
        assert forall|q: Seq<char>| #[trigger] has_key(t1, q) implies entry_eqv(
            value_of(t1, q),
            value_of(t2, q),
        ) by {
            let w = choose|w: int| 0 <= w < t1.len() && (#[trigger] t1[w]).0@ == q;
            assert(t1[w] == s1[w + 1]);
            assert(q != s1[0].0@);
            lemma_value_of_distinct(s1, q, w + 1);
            assert forall|a2: int, b2: int| 0 <= a2 < b2 < t1.len() implies (
            #[trigger] t1[a2]).0@ != (#[trigger] t1[b2]).0@ by {
                assert(t1[a2] == s1[a2 + 1] && t1[b2] == s1[b2 + 1]);
            }
            lemma_value_of_distinct(t1, q, w);
            assert(value_of(t1, q) == value_of(s1, q));
            assert(has_key(t2, q));
            let w2 = choose|w2: int| 0 <= w2 < t2.len() && (#[trigger] t2[w2]).0@ == q;
            assert(t2[w2] == s2[w2 + 1]);
            lemma_value_of_distinct(s2, q, w2 + 1);
            assert forall|a2: int, b2: int| 0 <= a2 < b2 < t2.len() implies (
            #[trigger] t2[a2]).0@ != (#[trigger] t2[b2]).0@ by {
                assert(t2[a2] == s2[a2 + 1] && t2[b2] == s2[b2 + 1]);
            }
            lemma_value_of_distinct(t2, q, w2);
            assert(value_of(t2, q) == value_of(s2, q));
        }
        assert forall|a2: int, b2: int| 0 <= a2 < b2 < t1.len() implies (#[trigger] t1[a2]).0@
            != (#[trigger] t1[b2]).0@ by {
            assert(t1[a2] == s1[a2 + 1] && t1[b2] == s1[b2 + 1]);
        }
        assert forall|a2: int, b2: int| 0 <= a2 < b2 < t2.len() implies (#[trigger] t2[a2]).0@
            != (#[trigger] t2[b2]).0@ by {
            assert(t2[a2] == s2[a2 + 1] && t2[b2] == s2[b2 + 1]);
        }
        assert forall|a2: int, b2: int| 0 <= a2 < b2 < t1.len() implies lex_le(
            (#[trigger] t1[a2]).0@,
            (#[trigger] t1[b2]).0@,
        ) by {
            assert(t1[a2] == s1[a2 + 1] && t1[b2] == s1[b2 + 1]);
        }
        assert forall|a2: int, b2: int| 0 <= a2 < b2 < t2.len() implies lex_le(
            (#[trigger] t2[a2]).0@,
            (#[trigger] t2[b2]).0@,
        ) by {
            assert(t2[a2] == s2[a2 + 1] && t2[b2] == s2[b2 + 1]);
        }
        lemma_sorted_packages_unique(t1, t2);
        assert forall|i: int| 0 <= i < s1.len() implies (#[trigger] s1[i]).0@ == s2[i].0@
            && entry_eqv(s1[i].1, s2[i].1) by {
            if i > 0 {
                assert(t1[i - 1] == s1[i] && t2[i - 1] == s2[i]);
            }
        }
    }
}

/// Entry-equivalent lists render the same body.
proof fn lemma_packages_body_congruent(
    s1: Seq<(String, LockfileEntry)>,
    s2: Seq<(String, LockfileEntry)>,
)
    requires
        s1.len() == s2.len(),
        forall|i: int|
            0 <= i < s1.len() ==> (#[trigger] s1[i]).0@ == s2[i].0@ && entry_eqv(
                s1[i].1,
                s2[i].1,
            ),
    ensures
        packages_body(s1) == packages_body(s2),
    decreases s1.len(),
{
    if s1.len() > 0 {
        assert(entry_text(s1[0].0@, s1[0].1) =~= entry_text(s2[0].0@, s2[0].1));
        assert forall|i: int| 0 <= i < s1.drop_first().len() implies (
        #[trigger] s1.drop_first()[i]).0@ == s2.drop_first()[i].0@ && entry_eqv(
            s1.drop_first()[i].1,
            s2.drop_first()[i].1,
        ) by {
            assert(s1.drop_first()[i] == s1[i + 1] && s2.drop_first()[i] == s2[i + 1]);
        }
        lemma_packages_body_congruent(s1.drop_first(), s2.drop_first());
        if s1.len() == 1 {
        } else {
            assert(packages_body(s1) =~= packages_body(s2));
        }
    }
}

/// Serialization is deterministic: two lockfiles that agree on the
/// project identity, the format version, and the package map — whatever
/// order their package lists are in — render to byte-identical text,
/// because the text orders keys lexicographically.
pub proof fn lemma_lockfile_text_deterministic(
    name: Seq<char>,
    version: Seq<char>,
    lockfile_version: Seq<char>,
    s1: Seq<(String, LockfileEntry)>,
    s2: Seq<(String, LockfileEntry)>,
)
    requires
        sorted_keys(s1),
        sorted_keys(s2),
        distinct_keys(s1),
        distinct_keys(s2),
        forall|q: Seq<char>| #[trigger] has_key(s1, q) <==> has_key(s2, q),
        forall|q: Seq<char>|
            #[trigger] has_key(s1, q) ==> entry_eqv(value_of(s1, q), value_of(s2, q)),
    ensures
        lockfile_text_with(name, version, lockfile_version, s1) == lockfile_text_with(
            name,
            version,
            lockfile_version,
            s2,
        ),
{
    lemma_sorted_packages_unique(s1, s2);
    lemma_packages_body_congruent(s1, s2);
}

} // verus!

verus! {

/// Why lockfile JSON was rejected: it does not have the lockfile shape.
#[derive(Debug)]
pub enum LockfileError {
    Schema,
}

/// The JSON value records exactly this optional string field.
pub open spec fn json_matches_opt(j: Json, o: Option<String>) -> bool {
    match o {
        Some(u) => j matches Json::Str(x) && x@ == u@,
        None => j is Null,
    }
}

/// The JSON value records exactly this dependency map (string values,
/// first binding of each key).
pub open spec fn json_matches_deps(j: Json, deps: Seq<(String, String)>) -> bool {
    &&& (j matches Json::Obj(d))
    &&& (forall|q: Seq<char>| #[trigger] has_key(j->Obj_0@, q) <==> has_key(deps, q))
    &&& (forall|q: Seq<char>|
        #[trigger] has_key(deps, q) ==> (value_of(j->Obj_0@, q) matches Json::Str(x) && x@
            == value_of(deps, q)@))
}

/// The JSON value records exactly this lockfile entry.
pub open spec fn json_matches_entry(j: Json, e: LockfileEntry) -> bool {
    &&& (j matches Json::Obj(f))
    &&& has_key(j->Obj_0@, "version"@)
    &&& (value_of(j->Obj_0@, "version"@) matches Json::Str(s) && s@ == e.version@)
    &&& has_key(j->Obj_0@, "resolved"@)
    &&& json_matches_opt(value_of(j->Obj_0@, "resolved"@), e.resolved)
    &&& has_key(j->Obj_0@, "integrity"@)
    &&& json_matches_opt(value_of(j->Obj_0@, "integrity"@), e.integrity)
    &&& has_key(j->Obj_0@, "dependencies"@)
    &&& json_matches_deps(value_of(j->Obj_0@, "dependencies"@), e.dependencies@)
}

/// The JSON value records exactly this lockfile content.
pub open spec fn json_matches_lockfile(
    j: Json,
    name: Seq<char>,
    version: Seq<char>,
    lockfile_version: Seq<char>,
    packages: Seq<(String, LockfileEntry)>,
) -> bool {
    &&& (j matches Json::Obj(f))
    &&& has_key(j->Obj_0@, "name"@)
    &&& (value_of(j->Obj_0@, "name"@) matches Json::Str(s) && s@ == name)
    &&& has_key(j->Obj_0@, "version"@)
    &&& (value_of(j->Obj_0@, "version"@) matches Json::Str(s) && s@ == version)
    &&& has_key(j->Obj_0@, "lockfile_version"@)
    &&& (value_of(j->Obj_0@, "lockfile_version"@) matches Json::Str(s) && s@ == lockfile_version)
    &&& has_key(j->Obj_0@, "packages"@)
    &&& (value_of(j->Obj_0@, "packages"@) matches Json::Obj(p))
    &&& (forall|q: Seq<char>|
        #[trigger] has_key(value_of(j->Obj_0@, "packages"@)->Obj_0@, q) <==> has_key(
            packages,
            q,
        ))
    &&& (forall|q: Seq<char>|
        #[trigger] has_key(packages, q) ==> json_matches_entry(
            value_of(value_of(j->Obj_0@, "packages"@)->Obj_0@, q),
            value_of(packages, q),
        ))
}

} // verus!

verus! {

/// The JSON value for an optional string field.
fn opt_to_json(o: &Option<String>) -> (r: Json)
    ensures
        json_matches_opt(r, *o),
{
    match o {
        Some(u) => Json::Str(u.clone()),
        None => Json::Null,
    }
}

/// The JSON object for a dependency map.
fn deps_to_json(deps: &Vec<(String, String)>) -> (r: Json)
    requires
        distinct_keys(deps@),
    ensures
        json_matches_deps(r, deps@),
{
    let n = deps.len();
    let mut fields: Vec<(String, Json)> = Vec::new();
    let mut i: usize = 0;
    while i < n
        invariant
            n == deps@.len(),
            distinct_keys(deps@),
            0 <= i <= n,
            fields@.len() == i,
            forall|m: int|
                0 <= m < i ==> (#[trigger] fields@[m]).0 == deps@[m].0 && (fields@[m].1
                    matches Json::Str(x) && x@ == deps@[m].1@),
        decreases n - i,
    {
        fields.push((deps[i].0.clone(), Json::Str(deps[i].1.clone())));
        i = i + 1;
    }
    proof {
        assert forall|q: Seq<char>| #[trigger] has_key(fields@, q) implies has_key(
            deps@,
            q,
        ) by {
            let m = choose|m: int| 0 <= m < fields@.len() && (#[trigger] fields@[m]).0@ == q;
            assert(deps@[m].0@ == q);
        }
        assert forall|q: Seq<char>| #[trigger] has_key(deps@, q) implies has_key(
            fields@,
            q,
        ) by {
            let m = choose|m: int| 0 <= m < deps@.len() && (#[trigger] deps@[m]).0@ == q;
            assert(fields@[m].0@ == q);
        }
        assert forall|q: Seq<char>| #[trigger] has_key(deps@, q) implies (value_of(fields@, q)
            matches Json::Str(x) && x@ == value_of(deps@, q)@) by {
            let m = choose|m: int| 0 <= m < deps@.len() && (#[trigger] deps@[m]).0@ == q;
            lemma_value_of_distinct(deps@, q, m);
            assert forall|a2: int, b2: int| 0 <= a2 < b2 < fields@.len() implies (
            #[trigger] fields@[a2]).0@ != (#[trigger] fields@[b2]).0@ by {
                assert(fields@[a2].0 == deps@[a2].0 && fields@[b2].0 == deps@[b2].0);
            }
            assert(fields@[m].0@ == q);
            lemma_value_of_distinct(fields@, q, m);
        }
    }
    Json::Obj(fields)
}

/// The JSON object for one lockfile entry.
fn entry_to_json(e: &LockfileEntry) -> (r: Json)
    requires
        e.wf(),
    ensures
        json_matches_entry(r, *e),
{
    let mut fields: Vec<(String, Json)> = Vec::new();
    fields.push(("version".to_owned(), Json::Str(e.version.clone())));
    fields.push(("resolved".to_owned(), opt_to_json(&e.resolved)));
    fields.push(("integrity".to_owned(), opt_to_json(&e.integrity)));
    fields.push(("dependencies".to_owned(), deps_to_json(&e.dependencies)));
    proof {
        reveal_strlit("version");
        reveal_strlit("resolved");
        reveal_strlit("integrity");
        reveal_strlit("dependencies");
        assert(fields@[0].0@ == "version"@ && fields@[1].0@ == "resolved"@ && fields@[2].0@
            == "integrity"@ && fields@[3].0@ == "dependencies"@);
        assert("version"@.len() == 7 && "resolved"@.len() == 8 && "integrity"@.len() == 9
            && "dependencies"@.len() == 12);
        lemma_value_of_distinct(fields@, "version"@, 0);
        lemma_value_of_distinct(fields@, "resolved"@, 1);
        lemma_value_of_distinct(fields@, "integrity"@, 2);
        lemma_value_of_distinct(fields@, "dependencies"@, 3);
    }
    Json::Obj(fields)
}

impl Lockfile {
    /// The lockfile as a JSON value: the project identity, the format
    /// version, and one object per package entry.
    pub fn lockfile_to_json(&self) -> (r: Json)
        requires
            self.wf(),
        ensures
            json_matches_lockfile(
                r,
                self.name@,
                self.version@,
                self.lockfile_version@,
                self.packages@,
            ),
    {
        let n = self.packages.len();
        let mut pf: Vec<(String, Json)> = Vec::new();
        let mut i: usize = 0;
        while i < n
            invariant
                n == self.packages@.len(),
                self.wf(),
                0 <= i <= n,
                pf@.len() == i,
                forall|m: int|
                    0 <= m < i ==> (#[trigger] pf@[m]).0 == self.packages@[m].0
                        && json_matches_entry(pf@[m].1, self.packages@[m].1),
            decreases n - i,
        {
            pf.push((self.packages[i].0.clone(), entry_to_json(&self.packages[i].1)));
            i = i + 1;
        }
        proof {
            assert forall|q: Seq<char>| #[trigger] has_key(pf@, q) implies has_key(
                self.packages@,
                q,
            ) by {
                let m = choose|m: int| 0 <= m < pf@.len() && (#[trigger] pf@[m]).0@ == q;
                assert(self.packages@[m].0@ == q);
            }
            assert forall|q: Seq<char>| #[trigger] has_key(self.packages@, q) implies has_key(
                pf@,
                q,
            ) by {
                let m = choose|m: int|
                    0 <= m < self.packages@.len() && (#[trigger] self.packages@[m]).0@ == q;
                assert(pf@[m].0@ == q);
            }
            assert forall|q: Seq<char>| #[trigger] has_key(self.packages@, q) implies
                json_matches_entry(value_of(pf@, q), value_of(self.packages@, q)) by {
                let m = choose|m: int|
                    0 <= m < self.packages@.len() && (#[trigger] self.packages@[m]).0@ == q;
                lemma_value_of_distinct(self.packages@, q, m);
                assert forall|a2: int, b2: int| 0 <= a2 < b2 < pf@.len() implies (
                #[trigger] pf@[a2]).0@ != (#[trigger] pf@[b2]).0@ by {
                    assert(pf@[a2].0 == self.packages@[a2].0 && pf@[b2].0
                        == self.packages@[b2].0);
                }
                assert(pf@[m].0@ == q);
                lemma_value_of_distinct(pf@, q, m);
            }
        }
        let mut fields: Vec<(String, Json)> = Vec::new();
        fields.push(("name".to_owned(), Json::Str(self.name.clone())));
        fields.push(("version".to_owned(), Json::Str(self.version.clone())));
        fields.push(("lockfile_version".to_owned(), Json::Str(self.lockfile_version.clone())));
        fields.push(("packages".to_owned(), Json::Obj(pf)));
        proof {
            reveal_strlit("name");
            reveal_strlit("version");
            reveal_strlit("lockfile_version");
            reveal_strlit("packages");
            assert("name"@.len() == 4 && "version"@.len() == 7 && "lockfile_version"@.len()
                == 16 && "packages"@.len() == 8);
            lemma_value_of_distinct(fields@, "name"@, 0);
            lemma_value_of_distinct(fields@, "version"@, 1);
            lemma_value_of_distinct(fields@, "lockfile_version"@, 2);
            lemma_value_of_distinct(fields@, "packages"@, 3);
        }
        Json::Obj(fields)
    }
}

} // verus!

verus! {

/// Reads a string field of a JSON object.
fn obj_str(fields: &Vec<(String, Json)>, key: &String) -> (r: Option<String>)
    ensures
        match r {
            Some(s) => has_key(fields@, key@) && (value_of(fields@, key@) matches Json::Str(x)
                && x@ == s@),
            None => !has_key(fields@, key@) || !(value_of(fields@, key@) is Str),
        },
{
    match crate::kv::kv_get(fields, key) {
        Some(v) => match v {
            Json::Str(s) => Some(s.clone()),
            _ => None,
        },
        None => None,
    }
}

/// Reads a dependency map out of its JSON object: string values at first
/// bindings; later duplicate keys are ignored.
fn deps_from_json(j: &Json) -> (r: Result<Vec<(String, String)>, LockfileError>)
    ensures
        match r {
            Ok(deps) => distinct_keys(deps@) && json_matches_deps(*j, deps@),
            Err(_) => !(exists|deps: Seq<(String, String)>| json_matches_deps(*j, deps)),
        },
{
    let d = match j {
        Json::Obj(d) => d,
        _ => {
            return Err(LockfileError::Schema);
        },
    };
    let n = d.len();
    let mut out: Vec<(String, String)> = Vec::new();
    let mut i: usize = 0;
    while i < n
        invariant
            n == d@.len(),
            *j matches Json::Obj(dd) && dd@ == d@,
            j->Obj_0@ == d@,
            0 <= i <= n,
            distinct_keys(out@),
            forall|q: Seq<char>|
                #[trigger] has_key(out@, q) <==> (exists|m: int|
                    0 <= m < i && (#[trigger] d@[m]).0@ == q),
            forall|q: Seq<char>|
                #[trigger] has_key(out@, q) ==> (value_of(d@, q) matches Json::Str(x) && x@
                    == value_of(out@, q)@),
        decreases n - i,
    {
        let key = &d[i].0;
        if !crate::kv::kv_contains(&out, key) {
            proof {
                assert forall|m: int| 0 <= m < i implies (#[trigger] d@[m]).0@ != key@ by {
                    if d@[m].0@ == key@ {
                        assert(has_key(out@, key@));
                    }
                }
                crate::kv::lemma_value_of_first(d@, key@, i as int);
            }
            match &d[i].1 {
                Json::Str(s) => {
                    let ghost out0 = out@;
                    out.push((key.clone(), s.clone()));
                    proof {
                        assert forall|q: Seq<char>| (exists|m: int|
                            0 <= m < i + 1 && (#[trigger] d@[m]).0@ == q) implies has_key(
                            out@,
                            q,
                        ) by {
                            let m = choose|m: int|
                                0 <= m < i + 1 && (#[trigger] d@[m]).0@ == q;
                            if m < i {
                                assert(has_key(out0, q));
                                let m2 = choose|m2: int|
                                    0 <= m2 < out0.len() && (#[trigger] out0[m2]).0@ == q;
                                assert(out@[m2].0@ == q);
                            } else {
                                assert(out@[out@.len() - 1].0@ == q);
                            }
                        }
                        assert forall|q: Seq<char>| #[trigger] has_key(out0, q) implies
                            has_key(out@, q) by {
                            let m2 = choose|m2: int|
                                0 <= m2 < out0.len() && (#[trigger] out0[m2]).0@ == q;
                            assert(out@[m2].0@ == q);
                        }
                        assert forall|q: Seq<char>| #[trigger] has_key(out@, q) implies (q
                            == key@ || has_key(out0, q)) by {
                            let m2 = choose|m2: int|
                                0 <= m2 < out@.len() && (#[trigger] out@[m2]).0@ == q;
                            if m2 < out@.len() - 1 {
                                assert(out0[m2].0@ == q);
                            }
                        }
                        assert(out@[out@.len() - 1].0@ == key@);
                        assert forall|q: Seq<char>| #[trigger] has_key(out@, q) implies (
                        value_of(d@, q) matches Json::Str(x) && x@ == value_of(out@, q)@) by {
                            let m2 = choose|m2: int|
                                0 <= m2 < out@.len() && (#[trigger] out@[m2]).0@ == q;
                            lemma_value_of_distinct(out@, q, m2);
                            if m2 < out@.len() - 1 {
                                assert(out@[m2] == out0[m2]);
                                lemma_value_of_distinct(out0, q, m2);
                                assert(has_key(out0, q));
                            } else {
                                assert(value_of(out@, q) == out@[m2].1);
                            }
                        }
                    }
                },
                _ => {
                    proof {
                        assert forall|deps: Seq<(String, String)>| !json_matches_deps(
                            *j,
                            deps,
                        ) by {
                            if json_matches_deps(*j, deps) {
                                assert(has_key(d@, key@));
                                assert(has_key(deps, key@));
                                assert(value_of(d@, key@) is Str);
                            }
                        }
                    }
                    return Err(LockfileError::Schema);
                },
            }
        } else {
            proof {
                assert forall|q: Seq<char>| (exists|m: int|
                    0 <= m < i + 1 && (#[trigger] d@[m]).0@ == q) implies has_key(
                    out@,
                    q,
                ) by {
                    let m = choose|m: int| 0 <= m < i + 1 && (#[trigger] d@[m]).0@ == q;
                    if m == i {
                        assert(has_key(out@, key@));
                    }
                }
            }
        }
        i = i + 1;
    }
    proof {
        assert forall|q: Seq<char>| #[trigger] has_key(d@, q) implies has_key(out@, q) by {
            let m = choose|m: int| 0 <= m < d@.len() && (#[trigger] d@[m]).0@ == q;
        }
    }
    Ok(out)
}

/// Reads one lockfile entry out of its JSON object.
fn entry_from_json(j: &Json) -> (r: Result<LockfileEntry, LockfileError>)
    ensures
        match r {
            Ok(e) => e.wf() && json_matches_entry(*j, e),
            Err(_) => !(exists|e: LockfileEntry| json_matches_entry(*j, e)),
        },
{
    let f = match j {
        Json::Obj(f) => f,
        _ => {
            return Err(LockfileError::Schema);
        },
    };
    let version = match obj_str(f, &"version".to_owned()) {
        Some(s) => s,
        None => {
            return Err(LockfileError::Schema);
        },
    };
    let resolved = match crate::kv::kv_get(f, &"resolved".to_owned()) {
        Some(Json::Str(s)) => Some(s.clone()),
        Some(Json::Null) => None,
        _ => {
            return Err(LockfileError::Schema);
        },
    };
    let integrity = match crate::kv::kv_get(f, &"integrity".to_owned()) {
        Some(Json::Str(s)) => Some(s.clone()),
        Some(Json::Null) => None,
        _ => {
            return Err(LockfileError::Schema);
        },
    };
    let deps_json = match crate::kv::kv_get(f, &"dependencies".to_owned()) {
        Some(v) => v,
        None => {
            return Err(LockfileError::Schema);
        },
    };
    let dependencies = match deps_from_json(deps_json) {
        Ok(deps) => deps,
        Err(e) => {
            return Err(e);
        },
    };
    Ok(LockfileEntry { version, resolved, integrity, dependencies })
}

/// Reads a lockfile out of its JSON value; fails exactly when the value
/// does not have the lockfile shape.
pub fn lockfile_from_json(j: &Json) -> (r: Result<Lockfile, LockfileError>)
    ensures
        match r {
            Ok(lf) => lf.wf() && json_matches_lockfile(
                *j,
                lf.name@,
                lf.version@,
                lf.lockfile_version@,
                lf.packages@,
            ),
            Err(_) => !(exists|lf: Lockfile|
                json_matches_lockfile(
                    *j,
                    lf.name@,
                    lf.version@,
                    lf.lockfile_version@,
                    lf.packages@,
                )),
        },
{
    let f = match j {
        Json::Obj(f) => f,
        _ => {
            return Err(LockfileError::Schema);
        },
    };
    let name = match obj_str(f, &"name".to_owned()) {
        Some(s) => s,
        None => {
            return Err(LockfileError::Schema);
        },
    };
    let version = match obj_str(f, &"version".to_owned()) {
        Some(s) => s,
        None => {
            return Err(LockfileError::Schema);
        },
    };
    let lockfile_version = match obj_str(f, &"lockfile_version".to_owned()) {
        Some(s) => s,
        None => {
            return Err(LockfileError::Schema);
        },
    };
    let pj = match crate::kv::kv_get(f, &"packages".to_owned()) {
        Some(v) => v,
        None => {
            return Err(LockfileError::Schema);
        },
    };
    let pf = match pj {
        Json::Obj(pf) => pf,
        _ => {
            return Err(LockfileError::Schema);
        },
    };
    let n = pf.len();
    let mut packages: Vec<(String, LockfileEntry)> = Vec::new();
    let mut i: usize = 0;
    while i < n
        invariant
            n == pf@.len(),
            *j matches Json::Obj(ff) && ff@ == f@,
            j->Obj_0@ == f@,
            value_of(f@, "packages"@) matches Json::Obj(x) && x@ == pf@,
            value_of(f@, "packages"@)->Obj_0@ == pf@,
            has_key(f@, "packages"@),
            has_key(f@, "name"@),
            value_of(f@, "name"@) matches Json::Str(x) && x@ == name@,
            has_key(f@, "version"@),
            value_of(f@, "version"@) matches Json::Str(x) && x@ == version@,
            has_key(f@, "lockfile_version"@),
            value_of(f@, "lockfile_version"@) matches Json::Str(x) && x@ == lockfile_version@,
            0 <= i <= n,
            distinct_keys(packages@),
            forall|m: int| 0 <= m < packages@.len() ==> (#[trigger] packages@[m]).1.wf(),
            forall|q: Seq<char>|
                #[trigger] has_key(packages@, q) <==> (exists|m: int|
                    0 <= m < i && (#[trigger] pf@[m]).0@ == q),
            forall|q: Seq<char>|
                #[trigger] has_key(packages@, q) ==> json_matches_entry(
                    value_of(pf@, q),
                    value_of(packages@, q),
                ),
        decreases n - i,
    {
        let key = &pf[i].0;
        if !crate::kv::kv_contains(&packages, key) {
            proof {
                assert forall|m: int| 0 <= m < i implies (#[trigger] pf@[m]).0@ != key@ by {
                    if pf@[m].0@ == key@ {
                        assert(has_key(packages@, key@));
                    }
                }
                crate::kv::lemma_value_of_first(pf@, key@, i as int);
            }
            match entry_from_json(&pf[i].1) {
                Ok(entry) => {
                    let ghost p0 = packages@;
                    packages.push((key.clone(), entry));
                    proof {
                        assert forall|q: Seq<char>| (exists|m: int|
                            0 <= m < i + 1 && (#[trigger] pf@[m]).0@ == q) implies has_key(
                            packages@,
                            q,
                        ) by {
                            let m = choose|m: int|
                                0 <= m < i + 1 && (#[trigger] pf@[m]).0@ == q;
                            if m < i {
                                assert(has_key(p0, q));
                                let m2 = choose|m2: int|
                                    0 <= m2 < p0.len() && (#[trigger] p0[m2]).0@ == q;
                                assert(packages@[m2].0@ == q);
                            } else {
                                assert(packages@[packages@.len() - 1].0@ == q);
                            }
                        }
                        assert forall|q: Seq<char>| #[trigger] has_key(p0, q) implies
                            has_key(packages@, q) by {
                            let m2 = choose|m2: int|
                                0 <= m2 < p0.len() && (#[trigger] p0[m2]).0@ == q;
                            assert(packages@[m2].0@ == q);
                        }
                        assert forall|q: Seq<char>| #[trigger] has_key(packages@, q) implies (
                        q == key@ || has_key(p0, q)) by {
                            let m2 = choose|m2: int|
                                0 <= m2 < packages@.len() && (#[trigger] packages@[m2]).0@
                                    == q;
                            if m2 < packages@.len() - 1 {
                                assert(p0[m2].0@ == q);
                            }
                        }
                        assert(packages@[packages@.len() - 1].0@ == key@);
                        assert forall|q: Seq<char>| #[trigger] has_key(packages@, q) implies
                            json_matches_entry(value_of(pf@, q), value_of(packages@, q)) by {
                            let m2 = choose|m2: int|
                                0 <= m2 < packages@.len() && (#[trigger] packages@[m2]).0@
                                    == q;
                            lemma_value_of_distinct(packages@, q, m2);
                            if m2 < packages@.len() - 1 {
                                assert(packages@[m2] == p0[m2]);
                                lemma_value_of_distinct(p0, q, m2);
                                assert(has_key(p0, q));
                            } else {
                                assert(value_of(packages@, q) == packages@[m2].1);
                            }
                        }
                    }
                },
                Err(e) => {
                    proof {
                        assert forall|lf: Lockfile| !json_matches_lockfile(
                            *j,
                            lf.name@,
                            lf.version@,
                            lf.lockfile_version@,
                            lf.packages@,
                        ) by {
                            if json_matches_lockfile(
                                *j,
                                lf.name@,
                                lf.version@,
                                lf.lockfile_version@,
                                lf.packages@,
                            ) {
                                assert(pf@[i as int].0@ == key@);
                                assert(has_key(pf@, key@));
                                assert(has_key(
                                    value_of(j->Obj_0@, "packages"@)->Obj_0@,
                                    key@,
                                ));
                                assert(has_key(lf.packages@, key@));
                                assert(json_matches_entry(
                                    value_of(pf@, key@),
                                    value_of(lf.packages@, key@),
                                ));
                            }
                        }
                    }
                    return Err(e);
                },
            }
        } else {
            proof {
                assert forall|q: Seq<char>| (exists|m: int|
                    0 <= m < i + 1 && (#[trigger] pf@[m]).0@ == q) implies has_key(
                    packages@,
                    q,
                ) by {
                    let m = choose|m: int| 0 <= m < i + 1 && (#[trigger] pf@[m]).0@ == q;
                    if m == i {
                        assert(has_key(packages@, key@));
                    }
                }
            }
        }
        i = i + 1;
    }
    proof {
        assert forall|q: Seq<char>| #[trigger] has_key(pf@, q) implies has_key(
            packages@,
            q,
        ) by {
            let m = choose|m: int| 0 <= m < pf@.len() && (#[trigger] pf@[m]).0@ == q;
        }
    }
    Ok(Lockfile { name, version, lockfile_version, packages })
}

/// Entries record the same content at the map level: same version text,
/// same optional fields, and the same dependency edges.
pub open spec fn entry_map_eqv(a: LockfileEntry, b: LockfileEntry) -> bool {
    &&& a.version@ == b.version@
    &&& match (a.resolved, b.resolved) {
        (Some(x), Some(y)) => x@ == y@,
        (None, None) => true,
        _ => false,
    }
    &&& match (a.integrity, b.integrity) {
        (Some(x), Some(y)) => x@ == y@,
        (None, None) => true,
        _ => false,
    }
    &&& (forall|q: Seq<char>|
        #[trigger] has_key(a.dependencies@, q) <==> has_key(b.dependencies@, q))
    &&& (forall|q: Seq<char>|
        #[trigger] has_key(a.dependencies@, q) ==> value_of(a.dependencies@, q)@ == value_of(
            b.dependencies@,
            q,
        )@)
}

/// The lockfile round trip: a lockfile written as JSON and one loaded
/// back from that JSON agree — the same project identity and format
/// version, the same package keys, and for every key the same version,
/// resolved URL, integrity field and dependency edges.
pub proof fn lemma_lockfile_round_trip(j: Json, l1: Lockfile, l2: Lockfile)
    requires
        json_matches_lockfile(j, l1.name@, l1.version@, l1.lockfile_version@, l1.packages@),
        json_matches_lockfile(j, l2.name@, l2.version@, l2.lockfile_version@, l2.packages@),
    ensures
        l1.name@ == l2.name@,
        l1.version@ == l2.version@,
        l1.lockfile_version@ == l2.lockfile_version@,
        forall|q: Seq<char>| #[trigger] has_key(l1.packages@, q) <==> has_key(l2.packages@, q),
        forall|q: Seq<char>|
            #[trigger] has_key(l1.packages@, q) ==> entry_map_eqv(
                value_of(l1.packages@, q),
                value_of(l2.packages@, q),
            ),
{
    let pf = value_of(j->Obj_0@, "packages"@)->Obj_0@;
    assert forall|q: Seq<char>| #[trigger] has_key(l1.packages@, q) implies has_key(
        l2.packages@,
        q,
    ) by {
        if !has_key(pf, q) {
            assert(!has_key(l1.packages@, q));
        }
        assert(has_key(pf, q));
        assert(has_key(l2.packages@, q));
    }
    assert forall|q: Seq<char>| #[trigger] has_key(l2.packages@, q) implies has_key(
        l1.packages@,
        q,
    ) by {
        if !has_key(pf, q) {
            assert(!has_key(l2.packages@, q));
        }
        assert(has_key(pf, q));
        assert(has_key(l1.packages@, q));
    }
    assert forall|q: Seq<char>| #[trigger] has_key(l1.packages@, q) implies entry_map_eqv(
        value_of(l1.packages@, q),
        value_of(l2.packages@, q),
    ) by {
        if !has_key(pf, q) {
            assert(!has_key(l1.packages@, q));
        }
        assert(has_key(pf, q));
        let ej = value_of(pf, q);
        let e1 = value_of(l1.packages@, q);
        let e2 = value_of(l2.packages@, q);
        assert(json_matches_entry(ej, e1));
        assert(json_matches_entry(ej, e2));
        let dj = value_of(ej->Obj_0@, "dependencies"@);
        assert forall|p: Seq<char>| #[trigger] has_key(e1.dependencies@, p) implies has_key(
            e2.dependencies@,
            p,
        ) by {
            if !has_key(dj->Obj_0@, p) {
                assert(!has_key(e1.dependencies@, p));
            }
            assert(has_key(dj->Obj_0@, p));
        }
        assert forall|p: Seq<char>| #[trigger] has_key(e2.dependencies@, p) implies has_key(
            e1.dependencies@,
            p,
        ) by {
            if !has_key(dj->Obj_0@, p) {
                assert(!has_key(e2.dependencies@, p));
            }
            assert(has_key(dj->Obj_0@, p));
        }
        assert forall|p: Seq<char>| #[trigger] has_key(e1.dependencies@, p) implies value_of(
            e1.dependencies@,
            p,
        )@ == value_of(e2.dependencies@, p)@ by {
            if !has_key(dj->Obj_0@, p) {
                assert(!has_key(e1.dependencies@, p));
            }
            assert(has_key(dj->Obj_0@, p));
            assert(has_key(e2.dependencies@, p));
            assert(value_of(dj->Obj_0@, p)->Str_0@ == value_of(e1.dependencies@, p)@);
            assert(value_of(dj->Obj_0@, p)->Str_0@ == value_of(e2.dependencies@, p)@);
        }
    }
}

} // verus!
