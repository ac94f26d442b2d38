//! Package descriptors and the resolved dependency tree.

use vstd::prelude::*;
use crate::kv::{distinct_keys, has_key, value_of};

verus! {

/// A string-to-string association list read as a map over the key and
/// value text.
pub open spec fn as_str_map(s: Seq<(String, String)>) -> Map<Seq<char>, Seq<char>> {
    Map::new(|k: Seq<char>| has_key(s, k), |k: Seq<char>| value_of(s, k)@)
}

/// The mathematical content of a package descriptor.
pub ghost struct PackageV {
    pub name: Seq<char>,
    pub version: Seq<char>,
    pub dependencies: Map<Seq<char>, Seq<char>>,
    pub dev_dependencies: Map<Seq<char>, Seq<char>>,
}

/// A package descriptor: a (name, exact-version) identity with its
/// declared dependency maps (values are version-range text).
pub struct Package {
    pub name: String,
    pub version: String,
    pub dependencies: Vec<(String, String)>,
    pub dev_dependencies: Vec<(String, String)>,
}

impl View for Package {
    type V = PackageV;

    open spec fn view(&self) -> PackageV {
        PackageV {
            name: self.name@,
            version: self.version@,
            dependencies: as_str_map(self.dependencies@),
            dev_dependencies: as_str_map(self.dev_dependencies@),
        }
    }
}

impl Package {
    /// Each dependency map binds each name once.
    pub open spec fn wf(&self) -> bool {
        distinct_keys(self.dependencies@) && distinct_keys(self.dev_dependencies@)
    }
}

/// Copies a string-to-string association list.
pub fn clone_string_pairs(v: &Vec<(String, String)>) -> (r: Vec<(String, String)>)
    ensures
        r@ == v@,
{
    let n = v.len();
    let mut r: Vec<(String, String)> = Vec::new();
    let mut i: usize = 0;
    while i < n
        invariant
            n == v@.len(),
            0 <= i <= n,
            r@ == v@.subrange(0, i as int),
        decreases n - i,
    {
        r.push((v[i].0.clone(), v[i].1.clone()));
        proof {
            assert(r@ =~= v@.subrange(0, i + 1 as int));
        }
        i = i + 1;
    }
    proof {
        assert(v@.subrange(0, n as int) =~= v@);
    }
    r
}

impl Clone for Package {
    /// An exact copy: every field carries the same text.
    fn clone(&self) -> (r: Self)
        ensures
            r.name == self.name,
            r.version == self.version,
            r.dependencies@ == self.dependencies@,
            r.dev_dependencies@ == self.dev_dependencies@,
            r@ == self@,
            r.wf() == self.wf(),
    {
        Package {
            name: self.name.clone(),
            version: self.version.clone(),
            dependencies: clone_string_pairs(&self.dependencies),
            dev_dependencies: clone_string_pairs(&self.dev_dependencies),
        }
    }
}

/// The identity key `<name>@<version>` of a resolved node.
pub open spec fn pkg_key(name: Seq<char>, version: Seq<char>) -> Seq<char> {
    name + seq!['@'] + version
}

/// Builds the identity key `<name>@<version>`.
pub fn make_key(name: &str, version: &str) -> (r: String)
    ensures
        r@ == pkg_key(name@, version@),
{
    let mut r = name.to_owned();
    r.append("@");
    r.append(version);
    proof {
        reveal_strlit("@");
        assert(r@ =~= name@ + seq!['@'] + version@);
    }
    r
}

/// The name written before the last `@` of an identity key (empty when
/// the key has no `@`).
pub open spec fn name_of_key(k: Seq<char>) -> Seq<char>
    decreases k.len(),
{
    if k.len() == 0 {
        Seq::empty()
    } else if k.last() == '@' {
        k.drop_last()
    } else {
        name_of_key(k.drop_last())
    }
}

/// A key built from a version containing no `@` parses back to its name.
pub proof fn lemma_name_of_key(name: Seq<char>, version: Seq<char>)
    requires
        forall|i: int| 0 <= i < version.len() ==> version[i] != '@',
    ensures
        name_of_key(pkg_key(name, version)) == name,
    decreases version.len(),
{
    let k = pkg_key(name, version);
    if version.len() == 0 {
        assert(k.last() == '@');
        assert(k.drop_last() =~= name);
    } else {
        assert(k.last() == version.last());
        assert(k.drop_last() =~= pkg_key(name, version.drop_last()));
        lemma_name_of_key(name, version.drop_last());
    }
}

/// Identity keys of versions free of `@` are unambiguous.
pub proof fn lemma_pkg_key_injective(n1: Seq<char>, v1: Seq<char>, n2: Seq<char>, v2: Seq<char>)
    requires
        forall|i: int| 0 <= i < v1.len() ==> v1[i] != '@',
        forall|i: int| 0 <= i < v2.len() ==> v2[i] != '@',
        pkg_key(n1, v1) == pkg_key(n2, v2),
    ensures
        n1 == n2,
        v1 == v2,
{
    lemma_name_of_key(n1, v1);
    lemma_name_of_key(n2, v2);
    assert(n1 == n2);
    let k = pkg_key(n1, v1);
    assert(v1.len() == v2.len());
    assert forall|i: int| 0 <= i < v1.len() implies v1[i] == v2[i] by {
        assert(v1[i] == k[n1.len() + 1 + i]);
        assert(v2[i] == pkg_key(n2, v2)[n2.len() + 1 + i]);
    }
    assert(v1 =~= v2);
}

/// Recovers the name from an identity key.
pub fn key_name(k: &String) -> (r: String)
    ensures
        r@ == name_of_key(k@),
{
    let n = k.as_str().unicode_len();
    proof {
        assert(k@.subrange(0, n as int) =~= k@);
    }
    let mut i: usize = n;
    while i > 0
        invariant
            n == k@.len(),
            0 <= i <= n,
            name_of_key(k@) == name_of_key(k@.subrange(0, i as int)),
        decreases i,
    {
        proof {
            let pre = k@.subrange(0, i as int);
            assert(pre.last() == k@[i - 1]);
            assert(pre.drop_last() =~= k@.subrange(0, i - 1 as int));
        }
        if k.as_str().get_char(i - 1) == '@' {
            let r = k.as_str().substring_char(0, i - 1).to_owned();
            return r;
        }
        i = i - 1;
    }
    proof {
        assert(k@.subrange(0, 0) =~= Seq::<char>::empty());
    }
    String::new()
}

/// The mathematical content of a resolved dependency tree: the root and
/// the resolved nodes, keyed `<name>@<version>`.
pub ghost struct TreeV {
    pub root: PackageV,
    pub nodes: Map<Seq<char>, PackageV>,
}

/// A resolved graph: the root descriptor and the set of resolved nodes,
/// keyed by `<name>@<exact-version>`.
pub struct DependencyTree {
    pub root: Package,
    pub dependencies: Vec<(String, Package)>,
}

/// The nodes of a tree, read as a map from identity key to descriptor
/// content.
pub open spec fn as_pkg_map(s: Seq<(String, Package)>) -> Map<Seq<char>, PackageV> {
    Map::new(|k: Seq<char>| has_key(s, k), |k: Seq<char>| value_of(s, k)@)
}

impl View for DependencyTree {
    type V = TreeV;

    open spec fn view(&self) -> TreeV {
        TreeV { root: self.root@, nodes: as_pkg_map(self.dependencies@) }
    }
}

/// A well-formed resolved-node list: keys are distinct, each node is
/// keyed by its own identity, its version is valid semver (hence free of
/// `@`), and its dependency maps are well formed.
pub open spec fn node_list_wf(s: Seq<(String, Package)>) -> bool {
    &&& distinct_keys(s)
    &&& forall|k: Seq<char>|
        #[trigger] has_key(s, k) ==> {
            let p = value_of(s, k);
            k == pkg_key(p.name@, p.version@) && p.wf() && crate::vers::sv_ok(p.version@)
        }
}

/// The entry at index `i` of a well-formed node list carries its own
/// identity key and a well-formed package.
pub proof fn lemma_node_entry(s: Seq<(String, Package)>, i: int)
    requires
        node_list_wf(s),
        0 <= i < s.len(),
    ensures
        has_key(s, s[i].0@),
        value_of(s, s[i].0@) == s[i].1,
        s[i].0@ == pkg_key(s[i].1.name@, s[i].1.version@),
        s[i].1.wf(),
        crate::vers::sv_ok(s[i].1.version@),
{
    crate::kv::lemma_value_of_distinct(s, s[i].0@, i);
}

impl DependencyTree {
    /// The resolved-node list is well formed.
    pub open spec fn wf(&self) -> bool {
        node_list_wf(self.dependencies@)
    }
}

} // verus!
