//! The metadata cache.
//!
//! Within one resolve, the descriptor chosen for a request is memoized
//! under the request itself — the pair (name, original range text) — so
//! identical requests never re-run selection.

use vstd::prelude::*;
use crate::pkg::Package;

verus! {

/// The per-resolve memo of chosen descriptors, one entry per request.
pub struct PackageCache {
    pub entries: Vec<(String, String, Package)>,
}

impl PackageCache {
    /// No request is memoized twice.
    pub open spec fn wf(&self) -> bool {
        forall|i: int, j: int|
            0 <= i < j < self.entries@.len() ==> !((#[trigger] self.entries@[i]).0@ == (
            #[trigger] self.entries@[j]).0@ && self.entries@[i].1@ == self.entries@[j].1@)
    }

    /// The request (n, r) is memoized.
    pub open spec fn contains_req(&self, n: Seq<char>, r: Seq<char>) -> bool {
        exists|i: int|
            0 <= i < self.entries@.len() && (#[trigger] self.entries@[i]).0@ == n
                && self.entries@[i].1@ == r
    }

    /// The descriptor memoized for the request (n, r).
    pub open spec fn at_req(&self, n: Seq<char>, r: Seq<char>) -> Package {
        let i = choose|i: int|
            0 <= i < self.entries@.len() && (#[trigger] self.entries@[i]).0@ == n
                && self.entries@[i].1@ == r;
        self.entries@[i].2
    }

    /// An empty cache.
    pub fn new() -> (r: Self)
        ensures
            r.wf(),
            r.entries@.len() == 0,
            forall|n: Seq<char>, rr: Seq<char>| !r.contains_req(n, rr),
    {
        PackageCache { entries: Vec::new() }
    }

    /// The descriptor memoized for the request, if any.
    pub fn get<'a>(&'a self, name: &String, range: &String) -> (r: Option<&'a Package>)
        requires
            self.wf(),
        ensures
            match r {
                Some(p) => self.contains_req(name@, range@) && *p == self.at_req(
                    name@,
                    range@,
                ) && (exists|i: int|
                    0 <= i < self.entries@.len() && (#[trigger] self.entries@[i]).2 == *p
                        && self.entries@[i].0@ == name@ && self.entries@[i].1@ == range@),
                None => !self.contains_req(name@, range@),
            },
    {
        let n = self.entries.len();
        let mut i: usize = 0;
        while i < n
            invariant
                n == self.entries@.len(),
                0 <= i <= n,
                self.wf(),
                forall|m: int|
                    0 <= m < i ==> !((#[trigger] self.entries@[m]).0@ == name@
                        && self.entries@[m].1@ == range@),
            decreases n - i,
        {
            if self.entries[i].0 == *name && self.entries[i].1 == *range {
                return Some(&self.entries[i].2);
            }
            i = i + 1;
        }
        None
    }

    /// A memoized descriptor carrying exactly this name and version,
    /// under whatever request it was stored.
    pub fn find_version<'a>(&'a self, name: &String, version: &String) -> (r: Option<&'a Package>)
        ensures
            match r {
                Some(p) => p.name@ == name@ && p.version@ == version@ && (exists|i: int|
                    0 <= i < self.entries@.len() && (#[trigger] self.entries@[i]).2 == *p),
                None => forall|i: int|
                    0 <= i < self.entries@.len() ==> !((#[trigger] self.entries@[i]).2.name@
                        == name@ && self.entries@[i].2.version@ == version@),
            },
    {
        let n = self.entries.len();
        let mut i: usize = 0;
        while i < n
            invariant
                n == self.entries@.len(),
                0 <= i <= n,
                forall|m: int|
                    0 <= m < i ==> !((#[trigger] self.entries@[m]).2.name@ == name@
                        && self.entries@[m].2.version@ == version@),
            decreases n - i,
        {
            if self.entries[i].2.name == *name && self.entries[i].2.version == *version {
                return Some(&self.entries[i].2);
            }
            i = i + 1;
        }
        None
    }

    /// Memoizes `pkg` for a request seen for the first time.
    pub fn insert(&mut self, name: String, range: String, pkg: Package)
        requires
            old(self).wf(),
            !old(self).contains_req(name@, range@),
        ensures
            final(self).wf(),
            final(self).entries@ == old(self).entries@.push((name, range, pkg)),
            final(self).contains_req(name@, range@),
            final(self).at_req(name@, range@) == pkg,
            forall|n: Seq<char>, rr: Seq<char>|
                #[trigger] final(self).contains_req(n, rr) <==> (old(self).contains_req(n, rr)
                    || (n == name@ && rr == range@)),
            forall|n: Seq<char>, rr: Seq<char>|
                #[trigger] old(self).contains_req(n, rr) ==> final(self).at_req(n, rr) == old(
                    self,
                ).at_req(n, rr),
    {
        let ghost name_v = name@;
        let ghost range_v = range@;
        self.entries.push((name, range, pkg));
        proof {
            let s = self.entries@;
            let olds = old(self).entries@;
            assert forall|n: Seq<char>, rr: Seq<char>| #[trigger] self.contains_req(n, rr)
                implies (old(self).contains_req(n, rr) || (n == name_v && rr == range_v)) by {
                let i = choose|i: int|
                    0 <= i < s.len() && (#[trigger] s[i]).0@ == n && s[i].1@ == rr;
                if i < s.len() - 1 {
                    assert(olds[i].0@ == n && olds[i].1@ == rr);
                }
            }
            assert(s[s.len() - 1].0@ == name_v && s[s.len() - 1].1@ == range_v);
            assert forall|n: Seq<char>, rr: Seq<char>|
                #[trigger] old(self).contains_req(n, rr) implies self.contains_req(n, rr)
                && self.at_req(n, rr) == old(self).at_req(n, rr) by {
                let i = choose|i: int|
                    0 <= i < olds.len() && (#[trigger] olds[i]).0@ == n && olds[i].1@ == rr;
                assert(s[i].0@ == n && s[i].1@ == rr);
                let j = choose|j: int|
                    0 <= j < s.len() && (#[trigger] s[j]).0@ == n && s[j].1@ == rr;
                let j0 = choose|j0: int|
                    0 <= j0 < olds.len() && (#[trigger] olds[j0]).0@ == n && olds[j0].1@
                        == rr;
                assert(s[j0].0@ == n && s[j0].1@ == rr);
                assert(j < s.len() - 1);
                assert(j0 == j);
            }
        }
    }
}

} // verus!
