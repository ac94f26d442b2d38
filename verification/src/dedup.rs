//! The deduplication index.
//!
//! Per package name, the versions already chosen during a resolve,
//! together with the range text that first requested each, kept sorted
//! in descending semver order.  A later request for the same name is
//! first checked against this index: the highest registered version its
//! range accepts is reused instead of selecting a new one.

use vstd::prelude::*;
use crate::kv::{distinct_keys, has_key, kv_get, kv_set, lemma_value_of_distinct, value_of};
use crate::pkg::clone_string_pairs;
use crate::vers::{range_matches, range_parses, sv_le, sv_matches, sv_valid, svr_valid,
    version_le, version_parses};

verus! {

/// One name's registrations: (version, originating range text), strictly
/// descending in semver order.
pub open spec fn entry_wf(l: Seq<(String, String)>) -> bool {
    &&& forall|i: int| 0 <= i < l.len() ==> sv_valid((#[trigger] l[i]).0@)
    &&& forall|i: int, j: int|
        0 <= i < j < l.len() ==> (#[trigger] l[i]).0@ != (#[trigger] l[j]).0@ && sv_le(
            l[j].0@,
            l[i].0@,
        )
}

/// The first index of `list` whose version is at or below `version` in
/// semver order; every earlier entry is strictly above it.
fn find_pos(list: &Vec<(String, String)>, version: &String) -> (k: usize)
    requires
        entry_wf(list@),
        sv_valid(version@),
    ensures
        k <= list@.len(),
        forall|m: int|
            0 <= m < k ==> !sv_le((#[trigger] list@[m]).0@, version@) && sv_le(
                version@,
                list@[m].0@,
            ),
        k < list@.len() ==> sv_le(list@[k as int].0@, version@),
{
    let n = list.len();
    let mut k: usize = 0;
    while k < n
        invariant
            n == list@.len(),
            0 <= k <= n,
            entry_wf(list@),
            sv_valid(version@),
            forall|m: int|
                0 <= m < k ==> !sv_le((#[trigger] list@[m]).0@, version@) && sv_le(
                    version@,
                    list@[m].0@,
                ),
        decreases n - k,
    {
        if version_le(list[k].0.as_str(), version.as_str()) {
            return k;
        }
        k = k + 1;
    }
    k
}

/// The per-name registry of versions chosen so far in a resolve.
pub struct DependencyDeduplication {
    packages: Vec<(String, Vec<(String, String)>)>,
}

impl DependencyDeduplication {
    /// Names are keyed once; each name's list is strictly descending.
    pub closed spec fn wf(&self) -> bool {
        &&& distinct_keys(self.packages@)
        &&& forall|i: int|
            0 <= i < self.packages@.len() ==> entry_wf((#[trigger] self.packages@[i]).1@)
    }

    /// Version `v` has been registered under `name`.
    pub closed spec fn registered(&self, name: Seq<char>, v: Seq<char>) -> bool {
        has_key(self.packages@, name) && exists|i: int|
            0 <= i < value_of(self.packages@, name)@.len() && (#[trigger] value_of(
                self.packages@,
                name,
            )@[i]).0@ == v
    }

    /// An empty index.
    pub fn new() -> (r: Self)
        ensures
            r.wf(),
            forall|n: Seq<char>, v: Seq<char>| !r.registered(n, v),
    {
        DependencyDeduplication { packages: Vec::new() }
    }

    /// Registers `version` (chosen for `spec_text`) under `name`; keeps
    /// the name's list sorted descending and free of duplicates.  Fails,
    /// registering nothing, exactly when `version` is not valid semver.
    pub fn register_package(&mut self, name: &String, version: &String, spec_text: &String) -> (ok:
        bool)
        requires
            old(self).wf(),
        ensures
            ok == sv_valid(version@),
            final(self).wf(),
            ok ==> final(self).registered(name@, version@),
            forall|n: Seq<char>, v: Seq<char>|
                #[trigger] final(self).registered(n, v) <==> (old(self).registered(n, v) || (ok
                    && n == name@ && v == version@)),
    {
        let ghost olds = self.packages@;
        if !version_parses(version.as_str()) {
            return false;
        }
        let mut cur: Vec<(String, String)> = match kv_get(&self.packages, name) {
            Some(l) => clone_string_pairs(l),
            None => Vec::new(),
        };
        let ghost oldcur = cur@;
        proof {
            if has_key(olds, name@) {
                let m = choose|m: int| 0 <= m < olds.len() && (#[trigger] olds[m]).0@ == name@;
                lemma_value_of_distinct(olds, name@, m);
                assert(entry_wf(oldcur));
            }
        }
        let n = cur.len();
        let mut i: usize = 0;
        // an equal version is already registered: nothing to do
        while i < n
            invariant
                n == cur@.len(),
                0 <= i <= n,
                entry_wf(cur@),
                cur@ == oldcur,
                self == old(self),
                old(self).wf(),
                olds == old(self).packages@,
                sv_valid(version@),
                has_key(olds, name@) ==> oldcur == value_of(olds, name@)@,
                has_key(olds, name@) || oldcur.len() == 0,
                forall|m: int| 0 <= m < i ==> (#[trigger] cur@[m]).0@ != version@,
            decreases n - i,
        {
            if cur[i].0 == *version {
                proof {
                    assert(has_key(olds, name@));
                    assert((value_of(olds, name@)@[i as int]).0@ == version@);
                    assert(old(self).registered(name@, version@));
                }
                return true;
            }
            i = i + 1;
        }
        // find the insertion point: the first entry at or below `version`
        let k = find_pos(&cur, version);
        if k < n {
            // re-establish the quantified comparison facts for the entry
            // at `k`
            let le = version_le(cur[k].0.as_str(), version.as_str());
            assert(le);
        }
        cur.insert(k, (version.clone(), spec_text.clone()));
        proof {
            let newcur = cur@;
            assert forall|a: int| 0 <= a < newcur.len() implies sv_valid(
                (#[trigger] newcur[a]).0@,
            ) by {
                if a < k {
                    assert(newcur[a] == oldcur[a]);
                } else if a > k {
                    assert(newcur[a] == oldcur[a - 1]);
                }
            }
            assert forall|a: int, b: int| 0 <= a < b < newcur.len() implies (
            #[trigger] newcur[a]).0@ != (#[trigger] newcur[b]).0@ && sv_le(
                newcur[b].0@,
                newcur[a].0@,
            ) by {
                if b < k {
                    assert(newcur[a] == oldcur[a]);
                    assert(newcur[b] == oldcur[b]);
                } else if a > k {
                    assert(newcur[a] == oldcur[a - 1]);
                    assert(newcur[b] == oldcur[b - 1]);
                } else if a < k && b == k {
                    assert(newcur[a] == oldcur[a]);
                    assert(!sv_le(oldcur[a].0@, version@));
                    assert(sv_le(version@, oldcur[a].0@));
                } else if a < k && b > k {
                    assert(newcur[a] == oldcur[a]);
                    assert(newcur[b] == oldcur[b - 1]);
                } else if a == k && b > k {
                    assert(newcur[b] == oldcur[b - 1]);
                    assert(sv_le(oldcur[b - 1].0@, version@));
                }
            }
            assert(entry_wf(newcur));
        }
        let ghost newcur = cur@;
        kv_set(&mut self.packages, name.clone(), cur);
        proof {
            assert forall|ii: int| 0 <= ii < self.packages@.len() implies entry_wf(
                (#[trigger] self.packages@[ii]).1@,
            ) by {
                let e = self.packages@[ii];
                lemma_value_of_distinct(self.packages@, e.0@, ii);
                if e.0@ == name@ {
                    assert(value_of(self.packages@, e.0@) == cur);
                } else {
                    let m = choose|m: int|
                        0 <= m < olds.len() && (#[trigger] olds[m]).0@ == e.0@;
                    lemma_value_of_distinct(olds, e.0@, m);
                }
            }
            assert forall|nm: Seq<char>, v: Seq<char>| #[trigger] self.registered(nm, v)
                implies (old(self).registered(nm, v) || (nm == name@ && v == version@)) by {
                if nm == name@ {
                    let i0 = choose|i0: int|
                        0 <= i0 < value_of(self.packages@, nm)@.len() && (#[trigger] value_of(
                            self.packages@,
                            nm,
                        )@[i0]).0@ == v;
                    assert(value_of(self.packages@, nm)@ == newcur);
                    if v != version@ {
                        if i0 < k {
                            assert(newcur[i0] == oldcur[i0]);
                            assert(oldcur[i0].0@ == v);
                        } else {
                            assert(newcur[i0] == oldcur[i0 - 1]);
                            assert(oldcur[i0 - 1].0@ == v);
                        }
                        assert(has_key(olds, nm));
                        assert(old(self).registered(nm, v));
                    }
                }
            }
            assert forall|nm: Seq<char>, v: Seq<char>|
                old(self).registered(nm, v) || (nm == name@ && v == version@) implies
                #[trigger] self.registered(nm, v) by {
                if nm == name@ {
                    assert(value_of(self.packages@, nm)@ == newcur);
                    if v == version@ {
                        assert(newcur[k as int].0@ == version@);
                    } else {
                        let i0 = choose|i0: int|
                            0 <= i0 < value_of(olds, nm)@.len() && (#[trigger] value_of(
                                olds,
                                nm,
                            )@[i0]).0@ == v;
                        if i0 < k {
                            assert(newcur[i0].0@ == v);
                        } else {
                            assert(newcur[i0 + 1].0@ == v);
                        }
                    }
                } else {
                    let i0 = choose|i0: int|
                        0 <= i0 < value_of(olds, nm)@.len() && (#[trigger] value_of(
                            olds,
                            nm,
                        )@[i0]).0@ == v;
                    assert(value_of(self.packages@, nm) == value_of(olds, nm));
                }
            }
        }
        true
    }

    /// The highest registered version of `name` that the range text
    /// `req` accepts; `None` when `req` does not parse or no registered
    /// version matches.
    pub fn find_compatible_version(&self, name: &String, req: &String) -> (r: Option<String>)
        requires
            self.wf(),
        ensures
            match r {
                Some(v) => svr_valid(req@) && sv_valid(v@) && self.registered(name@, v@)
                    && sv_matches(req@, v@) && (forall|w: Seq<char>|
                    #[trigger] self.registered(name@, w) && sv_matches(req@, w) ==> w == v@
                        || sv_le(w, v@)),
                None => !svr_valid(req@) || (forall|w: Seq<char>|
                    #[trigger] self.registered(name@, w) ==> !sv_matches(req@, w)),
            },
    {
        if !range_parses(req.as_str()) {
            return None;
        }
        let list = match kv_get(&self.packages, name) {
            Some(l) => l,
            None => {
                return None;
            },
        };
        proof {
            let m = choose|m: int|
                0 <= m < self.packages@.len() && (#[trigger] self.packages@[m]).0@ == name@;
            lemma_value_of_distinct(self.packages@, name@, m);
            assert(entry_wf(list@));
        }
        let n = list.len();
        let mut i: usize = 0;
        while i < n
            invariant
                n == list@.len(),
                entry_wf(list@),
                0 <= i <= n,
                svr_valid(req@),
                self.wf(),
                has_key(self.packages@, name@),
                value_of(self.packages@, name@)@ == list@,
                forall|m: int| 0 <= m < i ==> !sv_matches(req@, (#[trigger] list@[m]).0@),
            decreases n - i,
        {
            if range_matches(req.as_str(), list[i].0.as_str()) {
                let v = list[i].0.clone();
                proof {
                    assert(self.registered(name@, list@[i as int].0@));
                    assert forall|w: Seq<char>| #[trigger] self.registered(name@, w)
                        && sv_matches(req@, w) implies w == v@ || sv_le(w, v@) by {
                        let m = choose|m: int|
                            0 <= m < list@.len() && (#[trigger] list@[m]).0@ == w;
                        assert(value_of(self.packages@, name@)@ == list@);
                        if m < i {
                            assert(!sv_matches(req@, w));
                        } else if m > i {
                            assert(sv_le(list@[m].0@, list@[i as int].0@));
                        }
                    }
                }
                return Some(v);
            }
            i = i + 1;
        }
        proof {
            assert forall|w: Seq<char>| #[trigger] self.registered(name@, w) implies
                !sv_matches(req@, w) by {
                let m = choose|m: int|
                    0 <= m < list@.len() && (#[trigger] list@[m]).0@ == w;
                assert(!sv_matches(req@, list@[m].0@));
            }
        }
        None
    }
}

} // verus!
