//! Registry records and version selection.
//!
//! A `PackageInfo` is the record the registry serves for one name: every
//! published version with its dependency maps and distribution block,
//! plus the dist-tags.  A `RegistrySnapshot` is the set of records (and
//! known-missing names) available to one resolve; the caller fetches
//! records and grows the snapshot, the resolver itself never performs
//! I/O.

use vstd::prelude::*;
use crate::kv::{distinct_keys, has_key, kv_contains, kv_get, kv_set, value_of};
use crate::vers::{range_admits, range_admits_version, range_parses, sv_le, sv_ok, sv_valid,
    svr_valid, version_le, version_parses};

verus! {

/// A version's distribution block: tarball URL and content digest.
pub struct DistInfo {
    pub shasum: String,
    pub tarball: String,
}

/// One published version of a package.
pub struct VersionInfo {
    pub version: String,
    pub dependencies: Vec<(String, String)>,
    pub dev_dependencies: Vec<(String, String)>,
    pub dist: DistInfo,
}

impl VersionInfo {
    /// Each dependency map binds each name once.
    pub open spec fn wf(&self) -> bool {
        distinct_keys(self.dependencies@) && distinct_keys(self.dev_dependencies@)
    }
}

/// The registry record for one name.
pub struct PackageInfo {
    pub name: String,
    pub versions: Vec<(String, VersionInfo)>,
    pub dist_tags: Vec<(String, String)>,
}

impl PackageInfo {
    /// Versions and tags are keyed once each; every version is well
    /// formed.
    pub open spec fn wf(&self) -> bool {
        &&& distinct_keys(self.versions@)
        &&& distinct_keys(self.dist_tags@)
        &&& forall|i: int|
            0 <= i < self.versions@.len() ==> (#[trigger] self.versions@[i]).1.wf()
    }
}

/// A version string that selection may choose for range text `r`: a key
/// of the record that is valid semver and that `r` admits (leniently:
/// an unparseable range admits everything).
pub open spec fn candidate(info: PackageInfo, r: Seq<char>, v: Seq<char>) -> bool {
    has_key(info.versions@, v) && sv_valid(v) && range_admits(r, v)
}

/// `v` is a candidate and no candidate is semver-greater.
pub open spec fn best_candidate(info: PackageInfo, r: Seq<char>, v: Seq<char>) -> bool {
    candidate(info, r, v) && (forall|w: Seq<char>|
        #[trigger] candidate(info, r, w) ==> w == v || sv_le(w, v))
}

/// `r` is no semver range but a dist-tag of the record, and `v` is the
/// version it maps to, present and valid.
pub open spec fn tag_selects(info: PackageInfo, r: Seq<char>, v: Seq<char>) -> bool {
    &&& !svr_valid(r)
    &&& has_key(info.dist_tags@, r)
    &&& value_of(info.dist_tags@, r)@ == v
    &&& has_key(info.versions@, v)
    &&& sv_valid(v)
}

/// What version selection returns for record `info` and range text `r`:
/// the semver-maximum admitted version when `r` parses as a range (or,
/// leniently, when it is neither a range nor a known dist-tag, in which
/// case it is read as the universal range); the tagged version when `r`
/// is a dist-tag of the record.
pub open spec fn selects(info: PackageInfo, r: Seq<char>, v: Seq<char>) -> bool {
    if svr_valid(r) || !has_key(info.dist_tags@, r) {
        best_candidate(info, r, v)
    } else {
        tag_selects(info, r, v)
    }
}

/// Some version can be selected.
pub open spec fn has_selection(info: PackageInfo, r: Seq<char>) -> bool {
    exists|v: Seq<char>| selects(info, r, v)
}

/// The version at index `m` is valid and admitted by `r`.
spec fn cand_at(info: PackageInfo, r: Seq<char>, m: int) -> bool {
    sv_valid(info.versions@[m].0@) && range_admits(r, info.versions@[m].0@)
}

/// Chooses the version of `info` that the range text `range` selects:
/// the semver-maximum admitted version, or the dist-tagged one; `None`
/// exactly when no version can be selected (`NoMatchingVersion`).
pub fn select_version(info: &PackageInfo, range: &String) -> (r: Option<String>)
    requires
        info.wf(),
    ensures
        match r {
            Some(v) => selects(*info, range@, v@) && sv_ok(v@),
            None => !has_selection(*info, range@),
        },
{
    let is_range = range_parses(range.as_str());
    if !is_range {
        if let Some(tagged) = kv_get(&info.dist_tags, range) {
            if kv_contains(&info.versions, tagged) && version_parses(tagged.as_str()) {
                return Some(tagged.clone());
            } else {
                proof {
                    assert forall|v: Seq<char>| !selects(*info, range@, v) by {
                        if v != tagged@ {
                            assert(value_of(info.dist_tags@, range@)@ != v);
                        }
                    }
                }
                return None;
            }
        }
    }
    let n = info.versions.len();
    let mut best: Option<usize> = None;
    let mut i: usize = 0;
    while i < n
        invariant
            n == info.versions@.len(),
            0 <= i <= n,
            info.wf(),
            match best {
                Some(b) => b < i && cand_at(*info, range@, b as int) && sv_ok(
                    info.versions@[b as int].0@,
                ) && (forall|m: int|
                    0 <= m < i && #[trigger] cand_at(*info, range@, m)
                        ==> info.versions@[m].0@ == info.versions@[b as int].0@ || sv_le(
                        info.versions@[m].0@,
                        info.versions@[b as int].0@,
                    )),
                None => forall|m: int| 0 <= m < i ==> !cand_at(*info, range@, m),
            },
        decreases n - i,
    {
        let ok = version_parses(info.versions[i].0.as_str()) && range_admits_version(
            range.as_str(),
            info.versions[i].0.as_str(),
        );
        if ok {
            match best {
                None => {
                    best = Some(i);
                },
                Some(b) => {
                    if version_le(info.versions[b].0.as_str(), info.versions[i].0.as_str()) {
                        best = Some(i);
                    }
                },
            }
        }
        i = i + 1;
    }
    match best {
        Some(b) => {
            let v = info.versions[b].0.clone();
            proof {
                assert(has_key(info.versions@, v@));
                assert(candidate(*info, range@, v@));
                assert forall|w: Seq<char>| #[trigger] candidate(*info, range@, w)
                    implies w == v@ || sv_le(w, v@) by {
                    let m = choose|m: int|
                        0 <= m < info.versions@.len() && (#[trigger] info.versions@[m]).0@
                            == w;
                    assert(cand_at(*info, range@, m));
                }
            }
            Some(v)
        },
        None => {
            proof {
                assert forall|w: Seq<char>| !selects(*info, range@, w) by {
                    if candidate(*info, range@, w) {
                        let m = choose|m: int|
                            0 <= m < info.versions@.len()
                                && (#[trigger] info.versions@[m]).0@ == w;
                        assert(cand_at(*info, range@, m));
                    }
                }
            }
            None
        },
    }
}

/// The registry metadata available to one resolve: for each fetched
/// name, its record, or `None` when the registry could not serve one.
pub struct RegistrySnapshot {
    pub entries: Vec<(String, Option<PackageInfo>)>,
}

impl RegistrySnapshot {
    /// Names are keyed once; every record is well formed.
    pub open spec fn wf(&self) -> bool {
        &&& distinct_keys(self.entries@)
        &&& forall|i: int|
            0 <= i < self.entries@.len() ==> match (#[trigger] self.entries@[i]).1 {
                Some(info) => info.wf(),
                None => true,
            }
    }

    /// Whether `name` was fetched (successfully or not).
    pub open spec fn spec_known(&self, name: Seq<char>) -> bool {
        has_key(self.entries@, name)
    }

    /// The fetch outcome stored for `name`.
    pub open spec fn spec_entry(&self, name: Seq<char>) -> Option<PackageInfo> {
        value_of(self.entries@, name)
    }

    /// An empty snapshot.
    pub fn new() -> (r: Self)
        ensures
            r.wf(),
            forall|n: Seq<char>| !r.spec_known(n),
    {
        RegistrySnapshot { entries: Vec::new() }
    }

    /// The fetch outcome for `name`: `None` when the name was never
    /// fetched.
    pub fn entry<'a>(&'a self, name: &String) -> (r: Option<&'a Option<PackageInfo>>)
        ensures
            match r {
                Some(e) => self.spec_known(name@) && *e == self.spec_entry(name@),
                None => !self.spec_known(name@),
            },
    {
        kv_get(&self.entries, name)
    }

    /// Records the outcome of fetching `name`.
    pub fn insert(&mut self, name: String, info: Option<PackageInfo>)
        requires
            old(self).wf(),
            match info {
                Some(i) => i.wf(),
                None => true,
            },
        ensures
            final(self).wf(),
            forall|q: Seq<char>|
                #[trigger] final(self).spec_known(q) <==> (q == name@ || old(
                    self,
                ).spec_known(q)),
            final(self).spec_entry(name@) == info,
            forall|q: Seq<char>|
                q != name@ && #[trigger] old(self).spec_known(q) ==> final(self).spec_entry(
                    q,
                ) == old(self).spec_entry(q),
    {
        let ghost olds = self.entries@;
        kv_set(&mut self.entries, name, info);
        proof {
            assert forall|i: int| 0 <= i < self.entries@.len() implies match (
            #[trigger] self.entries@[i]).1 {
                Some(rec) => rec.wf(),
                None => true,
            } by {
                let e = self.entries@[i];
                if e.0@ == name@ {
                    crate::kv::lemma_value_of_distinct(self.entries@, e.0@, i);
                } else {
                    crate::kv::lemma_value_of_distinct(self.entries@, e.0@, i);
                    let m = choose|m: int|
                        0 <= m < olds.len() && (#[trigger] olds[m]).0@ == e.0@;
                    crate::kv::lemma_value_of_distinct(olds, e.0@, m);
                }
            }
        }
    }
}

} // verus!
