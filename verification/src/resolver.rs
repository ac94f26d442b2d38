//! The dependency resolver.
//!
//! A resolve drains a work queue of (name, range) requests seeded from a
//! root descriptor.  Each request is answered from the per-resolve
//! metadata cache, the deduplication index, or the registry snapshot;
//! the chosen descriptor's own dependencies are enqueued (request-level
//! deduplication through the visited set breaks cycles), and the node
//! joins the resolved set, keyed `<name>@<exact-version>`.  Requests
//! whose name the snapshot does not know yet are reported back so the
//! caller can fetch them and resolve again; requests the registry cannot
//! satisfy are dropped (the lenient policy).
//!
//! The drain terminates because every enqueued request is new to the
//! visited set and, transitively, drawn from the snapshot's finite set
//! of dependency pairs.

use vstd::prelude::*;
use crate::cache::PackageCache;
use crate::dedup::DependencyDeduplication;
use crate::kv::{distinct_keys, has_key, kv_contains, kv_get, kv_set, lemma_value_of_distinct,
    value_of};
use crate::pkg::{clone_string_pairs, lemma_pkg_key_injective, make_key, node_list_wf, pkg_key,
    DependencyTree,
    Package};
use crate::registry::{has_selection, select_version, selects, PackageInfo, RegistrySnapshot,
    VersionInfo};
use crate::vers::{range_admits, range_admits_version, range_matches, range_parses, sv_le,
    sv_matches, sv_ok, sv_valid, svr_valid, version_le, version_parses};
use crate::workq::{queue_items, queue_new, queue_pop, queue_push};

verus! {

broadcast use vstd::seq_lib::seq_to_set_is_finite;

/// Why one request produced no resolved node.
pub enum ResolveError {
    /// The registry record offers no version that the range selects.
    NoMatchingVersion { name: String, range: String },
    /// The snapshot records that fetching this name failed.
    MetadataUnavailable { name: String },
    /// The snapshot holds nothing for this name yet: fetch its record
    /// and resolve again.
    MetadataNotFetched { name: String },
}

/// Relies on `num_cpus::get`: the number of logical CPUs, documented to
/// be at least 1.
#[verifier::external_body]
fn cpu_count() -> (r: usize)
    ensures
        1 <= r,
{
    num_cpus::get()
}

/// The request (n, r) occurs in the list.
pub open spec fn req_in(s: Seq<(String, String)>, n: Seq<char>, r: Seq<char>) -> bool {
    exists|i: int| 0 <= i < s.len() && (#[trigger] s[i]).0@ == n && s[i].1@ == r
}

/// The requests of the list, as a set of text pairs.
pub open spec fn req_set(s: Seq<(String, String)>) -> Set<(Seq<char>, Seq<char>)> {
    Set::new(|p: (Seq<char>, Seq<char>)| req_in(s, p.0, p.1))
}

/// Whether the request list contains (name, range).
pub fn req_list_contains(s: &Vec<(String, String)>, name: &String, range: &String) -> (r: bool)
    ensures
        r == req_in(s@, name@, range@),
{
    let n = s.len();
    let mut i: usize = 0;
    while i < n
        invariant
            n == s@.len(),
            0 <= i <= n,
            forall|m: int|
                0 <= m < i ==> !((#[trigger] s@[m]).0@ == name@ && s@[m].1@ == range@),
        decreases n - i,
    {
        if s[i].0 == *name && s[i].1 == *range {
            return true;
        }
        i = i + 1;
    }
    false
}

/// The dependency pairs declared by one dependency map.
pub open spec fn dep_pair_seq(deps: Seq<(String, String)>) -> Seq<(Seq<char>, Seq<char>)> {
    deps.map_values(|p: (String, String)| (p.0@, p.1@))
}

/// All dependency pairs of one registry record.
pub open spec fn record_pairs(info: PackageInfo) -> Seq<(Seq<char>, Seq<char>)> {
    info.versions@.map_values(|e: (String, VersionInfo)| dep_pair_seq(e.1.dependencies@)).flatten()
}

/// All dependency pairs named anywhere in the snapshot's records.
pub open spec fn registry_pairs(reg: RegistrySnapshot) -> Seq<(Seq<char>, Seq<char>)> {
    reg.entries@.map_values(
        |e: (String, Option<PackageInfo>)|
            match e.1 {
                Some(info) => record_pairs(info),
                None => Seq::<(Seq<char>, Seq<char>)>::empty(),
            },
    ).flatten()
}

/// The requests a resolve over `reg` can enqueue transitively: the
/// finite set of dependency pairs occurring in the snapshot.
pub open spec fn req_universe(reg: RegistrySnapshot) -> Set<(Seq<char>, Seq<char>)> {
    registry_pairs(reg).to_set()
}

/// Every dependency pair of `deps` lies in `u`.
pub open spec fn dep_pairs_in(deps: Seq<(String, String)>, u: Set<(Seq<char>, Seq<char>)>) -> bool {
    forall|j: int| 0 <= j < deps.len() ==> u.contains(((#[trigger] deps[j]).0@, deps[j].1@))
}

/// An element of a member sequence is in the flattened sequence.
proof fn lemma_flatten_contains<A>(s: Seq<Seq<A>>, i: int, j: int)
    requires
        0 <= i < s.len(),
        0 <= j < s[i].len(),
    ensures
        s.flatten().contains(s[i][j]),
    decreases i,
{
    assert(s.flatten() == s[0] + s.drop_first().flatten());
    if i == 0 {
        assert(s.flatten()[j] == s[i][j]);
    } else {
        let rest = s.drop_first();
        lemma_flatten_contains(rest, i - 1, j);
        let x = s[i][j];
        let k = choose|k: int| 0 <= k < rest.flatten().len() && rest.flatten()[k] == x;
        assert(s.flatten()[s[0].len() + k] == x);
    }
}

/// A dependency pair read out of a snapshot record lies in the
/// snapshot's universe of requests.
proof fn lemma_dep_in_universe(
    reg: RegistrySnapshot,
    info: PackageInfo,
    ei: int,
    vi: int,
    j: int,
)
    requires
        0 <= ei < reg.entries@.len(),
        reg.entries@[ei].1 == Some(info),
        0 <= vi < info.versions@.len(),
        0 <= j < info.versions@[vi].1.dependencies@.len(),
    ensures
        req_universe(reg).contains(
            (info.versions@[vi].1.dependencies@[j].0@, info.versions@[vi].1.dependencies@[j].1@),
        ),
{
    let deps = info.versions@[vi].1.dependencies@;
    let x = (deps[j].0@, deps[j].1@);
    let inner = info.versions@.map_values(
        |e: (String, VersionInfo)| dep_pair_seq(e.1.dependencies@),
    );
    assert(inner[vi] == dep_pair_seq(deps));
    assert(dep_pair_seq(deps)[j] == x);
    lemma_flatten_contains(inner, vi, j);
    let outer = reg.entries@.map_values(
        |e: (String, Option<PackageInfo>)|
            match e.1 {
                Some(info2) => record_pairs(info2),
                None => Seq::<(Seq<char>, Seq<char>)>::empty(),
            },
    );
    assert(outer[ei] == record_pairs(info));
    let k = choose|k: int|
        0 <= k < record_pairs(info).len() && record_pairs(info)[k] == x;
    lemma_flatten_contains(outer, ei, k);
}

/// The record the snapshot holds for `name`.
pub open spec fn spec_record(reg: RegistrySnapshot, name: Seq<char>) -> PackageInfo {
    match reg.spec_entry(name) {
        Some(info) => info,
        None => arbitrary(),
    }
}

/// The version is a key of the snapshot's record for the name.
pub open spec fn version_in_record(
    reg: RegistrySnapshot,
    name: Seq<char>,
    version: Seq<char>,
) -> bool {
    &&& reg.spec_known(name)
    &&& reg.spec_entry(name) is Some
    &&& has_key(spec_record(reg, name).versions@, version)
}

/// The descriptor is drawn from the snapshot's record of its name: its
/// version is one of the record's keys and its dependency maps are that
/// version's, verbatim.
pub open spec fn pkg_matches_record(reg: RegistrySnapshot, pkg: Package) -> bool {
    &&& version_in_record(reg, pkg.name@, pkg.version@)
    &&& pkg.dependencies@ == value_of(
        spec_record(reg, pkg.name@).versions@,
        pkg.version@,
    ).dependencies@
    &&& pkg.dev_dependencies@ == value_of(
        spec_record(reg, pkg.name@).versions@,
        pkg.version@,
    ).dev_dependencies@
}

/// A memoized cache entry is sound for its request: a well-formed
/// descriptor of the requested name, drawn from the snapshot's record,
/// with a valid version the range admits.
pub open spec fn entry_good(e: (String, String, Package), reg: RegistrySnapshot) -> bool {
    &&& e.2.wf()
    &&& sv_ok(e.2.version@)
    &&& e.2.name@ == e.0@
    &&& range_admits(e.1@, e.2.version@)
    &&& pkg_matches_record(reg, e.2)
    &&& dep_pairs_in(e.2.dependencies@, req_universe(reg))
}

/// Every cache entry is sound with respect to the snapshot.
pub open spec fn cache_ok(c: PackageCache, reg: RegistrySnapshot) -> bool {
    forall|i: int| 0 <= i < c.entries@.len() ==> entry_good(#[trigger] c.entries@[i], reg)
}

/// The descriptors carry the same text, field for field.
pub open spec fn pkg_eqv(a: Package, b: Package) -> bool {
    &&& a.name@ == b.name@
    &&& a.version@ == b.version@
    &&& a.dependencies@ == b.dependencies@
    &&& a.dev_dependencies@ == b.dev_dependencies@
}

/// How the resolver chose the returned descriptor for (name, range):
/// the memoized answer of this very request; or a version already
/// registered for the name that the range accepts (reuse through the
/// deduplication index); or the version the snapshot's record selects
/// for the range (semver-maximum admitted, dist-tagged, or lenient
/// universal — see `selects`).
pub open spec fn resolved_choice(
    before: DependencyResolver,
    reg: RegistrySnapshot,
    name: Seq<char>,
    range: Seq<char>,
    pkg: Package,
) -> bool {
    ||| (before.package_cache.contains_req(name, range) && pkg_eqv(
        pkg,
        before.package_cache.at_req(name, range),
    ))
    ||| (before.deduplication.registered(name, pkg.version@) && svr_valid(range) && sv_matches(
        range,
        pkg.version@,
    ))
    ||| (reg.spec_known(name) && reg.spec_entry(name) is Some && selects(
        spec_record(reg, name),
        range,
        pkg.version@,
    ))
}

/// The snapshot answers the request (n, r) and the answer rules out a
/// resolved node: the name was fetched, and either the fetch failed or
/// no version of the record can be selected for `r`.
pub open spec fn unresolvable(reg: RegistrySnapshot, n: Seq<char>, r: Seq<char>) -> bool {
    reg.spec_known(n) && match reg.spec_entry(n) {
        Some(info) => !has_selection(info, r),
        None => true,
    }
}

/// Some resolved node satisfies the request (d, r): its name is `d` and
/// its (valid) version is admitted by `r`.
pub open spec fn satisfied_in(nodes: Seq<(String, Package)>, d: Seq<char>, r: Seq<char>) -> bool {
    exists|k: Seq<char>|
        #[trigger] has_key(nodes, k) && value_of(nodes, k).name@ == d && sv_valid(
            value_of(nodes, k).version@,
        ) && range_admits(r, value_of(nodes, k).version@)
}

/// The dependency edge (a, b) — depend on name `a` under range text `b`
/// — is declared by some node of the list.
pub open spec fn edge_in(nodes: Seq<(String, Package)>, a: Seq<char>, b: Seq<char>) -> bool {
    exists|k: Seq<char>, j: int|
        #![trigger value_of(nodes, k).dependencies@[j]]
        has_key(nodes, k) && 0 <= j < value_of(nodes, k).dependencies@.len() && value_of(
            nodes,
            k,
        ).dependencies@[j].0@ == a && value_of(nodes, k).dependencies@[j].1@ == b
}

/// Some node of the list carries the name `a`.
pub open spec fn name_in(nodes: Seq<(String, Package)>, a: Seq<char>) -> bool {
    exists|k: Seq<char>| #[trigger] has_key(nodes, k) && value_of(nodes, k).name@ == a
}

/// Every node of `old` named `a` is still keyed in `new`.
pub open spec fn name_nodes_preserved(
    old_nodes: Seq<(String, Package)>,
    new_nodes: Seq<(String, Package)>,
    a: Seq<char>,
) -> bool {
    forall|k: Seq<char>|
        #[trigger] has_key(old_nodes, k) && value_of(old_nodes, k).name@ == a ==> has_key(
            new_nodes,
            k,
        )
}

/// The lenient outcome of one request: satisfied by a node, reported
/// back as not yet fetched, or known to be unresolvable and dropped.
pub open spec fn request_settled(
    nodes: Seq<(String, Package)>,
    pending: Seq<(String, String)>,
    reg: RegistrySnapshot,
    n: Seq<char>,
    r: Seq<char>,
) -> bool {
    satisfied_in(nodes, n, r) || req_in(pending, n, r) || unresolvable(reg, n, r)
}

/// The resolver: concurrency and batch configuration, and the state of
/// the current resolve (the visited set, the metadata cache and the
/// deduplication index, each emptied when a resolve starts).
pub struct DependencyResolver {
    pub concurrency: usize,
    pub batch_size: usize,
    pub visited: Vec<(String, String)>,
    pub package_cache: PackageCache,
    pub deduplication: DependencyDeduplication,
}

impl DependencyResolver {
    /// The cache and the index are internally consistent and the knobs
    /// are in range.
    pub open spec fn wf(&self) -> bool {
        &&& self.package_cache.wf()
        &&& self.deduplication.wf()
        &&& 1 <= self.concurrency
        &&& 10 <= self.batch_size <= 100
    }

    /// A fresh resolver: concurrency defaults to four tasks per CPU,
    /// batches to fifty requests.
    pub fn new() -> (r: Self)
        ensures
            r.wf(),
            r.batch_size == 50,
            r.visited@.len() == 0,
            r.package_cache.entries@.len() == 0,
    {
        let cpus = cpu_count();
        let concurrency: usize = if cpus > usize::MAX / 4 {
            usize::MAX
        } else {
            cpus * 4
        };
        DependencyResolver {
            concurrency,
            batch_size: 50,
            visited: Vec::new(),
            package_cache: PackageCache::new(),
            deduplication: DependencyDeduplication::new(),
        }
    }

    /// Overrides the concurrency level (floored at 1).
    pub fn with_concurrency(self, concurrency: usize) -> (r: Self)
        requires
            self.wf(),
        ensures
            r.wf(),
            r.concurrency == if concurrency < 1 { 1usize } else { concurrency },
            r.batch_size == self.batch_size,
            r.visited == self.visited,
            r.package_cache == self.package_cache,
            r.deduplication == self.deduplication,
    {
        let mut s = self;
        s.concurrency = if concurrency < 1 {
            1
        } else {
            concurrency
        };
        s
    }

    /// Overrides the batch size (clamped to [10, 100]).
    pub fn with_batch_size(self, batch_size: usize) -> (r: Self)
        requires
            self.wf(),
        ensures
            r.wf(),
            r.batch_size == if batch_size < 10 {
                10usize
            } else if batch_size > 100 {
                100usize
            } else {
                batch_size
            },
            r.concurrency == self.concurrency,
            r.visited == self.visited,
            r.package_cache == self.package_cache,
            r.deduplication == self.deduplication,
    {
        let mut s = self;
        s.batch_size = if batch_size < 10 {
            10
        } else if batch_size > 100 {
            100
        } else {
            batch_size
        };
        s
    }

    /// Resolves one request against the snapshot: the memoized answer if
    /// the request was seen before; otherwise a compatible version
    /// already chosen for the same name, if the index has one; otherwise
    /// the version the record selects for the range.  The choice is
    /// memoized and registered for deduplication.
    pub fn resolve_package(
        &mut self,
        name: &String,
        range: &String,
        registry: &RegistrySnapshot,
    ) -> (r: Result<Package, ResolveError>)
        requires
            old(self).wf(),
            registry.wf(),
            cache_ok(old(self).package_cache, *registry),
        ensures
            final(self).wf(),
            cache_ok(final(self).package_cache, *registry),
            final(self).visited == old(self).visited,
            final(self).concurrency == old(self).concurrency,
            final(self).batch_size == old(self).batch_size,
            match r {
                Ok(pkg) => {
                    &&& pkg.wf()
                    &&& sv_ok(pkg.version@)
                    &&& pkg.name@ == name@
                    &&& range_admits(range@, pkg.version@)
                    &&& pkg_matches_record(*registry, pkg)
                    &&& resolved_choice(*old(self), *registry, name@, range@, pkg)
                    &&& dep_pairs_in(pkg.dependencies@, req_universe(*registry))
                    &&& final(self).package_cache.contains_req(name@, range@)
                },
                Err(e) => *final(self) == *old(self) && match e {
                    ResolveError::NoMatchingVersion { name: n2, range: r2 } => n2@ == name@
                        && r2@ == range@ && unresolvable(*registry, name@, range@),
                    ResolveError::MetadataUnavailable { name: n2 } => n2@ == name@
                        && unresolvable(*registry, name@, range@),
                    ResolveError::MetadataNotFetched { name: n2 } => n2@ == name@
                        && !registry.spec_known(name@),
                },
            },
    {
        // memoized for this very request?
        if let Some(p) = self.package_cache.get(name, range) {
            let pkg = p.clone();
            return Ok(pkg);
        }
        // a compatible version already chosen for this name?
        if let Some(v) = self.deduplication.find_compatible_version(name, range) {
            if let Some(p) = self.package_cache.find_version(name, &v) {
                let pkg = p.clone();
                self.package_cache.insert(name.clone(), range.clone(), pkg.clone());
                return Ok(pkg);
            }
        }
        // consult the snapshot
        let entry = match registry.entry(name) {
            None => {
                return Err(ResolveError::MetadataNotFetched { name: name.clone() });
            },
            Some(e) => e,
        };
        let info = match entry {
            None => {
                return Err(ResolveError::MetadataUnavailable { name: name.clone() });
            },
            Some(info) => info,
        };
        let ghost ei = choose|ei: int|
            0 <= ei < registry.entries@.len() && (#[trigger] registry.entries@[ei]).0@
                == name@;
        proof {
            lemma_value_of_distinct(registry.entries@, name@, ei);
            assert(registry.entries@[ei].1 == Some(*info));
            assert(info.wf());
        }
        let chosen = match select_version(info, range) {
            None => {
                return Err(
                    ResolveError::NoMatchingVersion { name: name.clone(), range: range.clone() },
                );
            },
            Some(v) => v,
        };
        proof {
            assert(has_key(info.versions@, chosen@));
        }
        let vi = match kv_get(&info.versions, &chosen) {
            Some(vi) => vi,
            None => {
                proof {
                    assert(false);
                }
                vstd::pervasive::unreached()
            },
        };
        let ghost mi = choose|mi: int|
            0 <= mi < info.versions@.len() && (#[trigger] info.versions@[mi]).0@ == chosen@;
        proof {
            lemma_value_of_distinct(info.versions@, chosen@, mi);
            assert(vi.wf());
        }
        let pkg = Package {
            name: name.clone(),
            version: chosen.clone(),
            dependencies: clone_string_pairs(&vi.dependencies),
            dev_dependencies: clone_string_pairs(&vi.dev_dependencies),
        };
        proof {
            assert forall|j: int| 0 <= j < pkg.dependencies@.len() implies req_universe(
                *registry,
            ).contains(((#[trigger] pkg.dependencies@[j]).0@, pkg.dependencies@[j].1@)) by {
                lemma_dep_in_universe(*registry, *info, ei, mi, j);
            }
        }
        let _registered = self.deduplication.register_package(name, &chosen, range);
        self.package_cache.insert(name.clone(), range.clone(), pkg.clone());
        Ok(pkg)
    }
}

impl DependencyResolver {
    /// Resolves the root's requests transitively against the snapshot,
    /// draining the work queue.  The visited set, cache and index start
    /// empty (they are scoped to one resolve).  Returns the resolved set
    /// and the requests whose names the snapshot does not know yet: the
    /// caller fetches those records, grows the snapshot and resolves
    /// again.  Every request reachable from the root — the root's own
    /// and every resolved node's — is settled: satisfied by a node,
    /// reported back as pending, or unresolvable and dropped.
    fn resolve_dependencies_internal(
        &mut self,
        root: &Package,
        registry: &RegistrySnapshot,
    ) -> (r: (DependencyTree, Vec<(String, String)>))
        requires
            old(self).wf(),
            registry.wf(),
        ensures
            final(self).wf(),
            r.0.wf(),
            r.0.root@ == root@,
            forall|k: Seq<char>|
                #[trigger] has_key(r.0.dependencies@, k) ==> pkg_matches_record(
                    *registry,
                    value_of(r.0.dependencies@, k),
                ),
            forall|a: Seq<char>, b: Seq<char>|
                #[trigger] edge_in(r.0.dependencies@, a, b) ==> request_settled(
                    r.0.dependencies@,
                    r.1@,
                    *registry,
                    a,
                    b,
                ),
            forall|j: int|
                0 <= j < root.dependencies@.len() ==> request_settled(
                    r.0.dependencies@,
                    r.1@,
                    *registry,
                    (#[trigger] root.dependencies@[j]).0@,
                    root.dependencies@[j].1@,
                ),
            forall|j: int|
                0 <= j < root.dev_dependencies@.len() ==> request_settled(
                    r.0.dependencies@,
                    r.1@,
                    *registry,
                    (#[trigger] root.dev_dependencies@[j]).0@,
                    root.dev_dependencies@[j].1@,
                ),
            forall|m: int| 0 <= m < r.1@.len() ==> !registry.spec_known((#[trigger] r.1@[m]).0@),
    {
        self.visited = Vec::new();
        self.package_cache = PackageCache::new();
        self.deduplication = DependencyDeduplication::new();
        let mut q = queue_new();
        let mut nodes: Vec<(String, Package)> = Vec::new();
        let mut pending: Vec<(String, String)> = Vec::new();
        seed_requests(&mut self.visited, &mut q, &root.dependencies);
        seed_requests(&mut self.visited, &mut q, &root.dev_dependencies);
        let ghost u = req_universe(*registry);
        proof {
            assert(registry_pairs(*registry).to_set().finite());
        }
        let mut queue_empty = false;
        while !queue_empty
            invariant
                self.wf(),
                registry.wf(),
                cache_ok(self.package_cache, *registry),
                u == req_universe(*registry),
                u.finite(),
                queue_empty ==> queue_items(q).len() == 0,
                node_list_wf(nodes@),
                forall|k: Seq<char>|
                    #[trigger] has_key(nodes@, k) ==> pkg_matches_record(
                        *registry,
                        value_of(nodes@, k),
                    ),
                forall|n2: Seq<char>, r2: Seq<char>|
                    #[trigger] req_in(queue_items(q), n2, r2) ==> req_in(self.visited@, n2, r2),
                forall|n2: Seq<char>, r2: Seq<char>|
                    #[trigger] req_in(self.visited@, n2, r2) ==> req_in(queue_items(q), n2, r2)
                        || request_settled(nodes@, pending@, *registry, n2, r2),
                forall|k: Seq<char>, j: int|
                    #![trigger value_of(nodes@, k).dependencies@[j]]
                    has_key(nodes@, k) && 0 <= j < value_of(nodes@, k).dependencies@.len()
                        ==> req_in(
                        self.visited@,
                        value_of(nodes@, k).dependencies@[j].0@,
                        value_of(nodes@, k).dependencies@[j].1@,
                    ),
                forall|m: int|
                    0 <= m < pending@.len() ==> !registry.spec_known((#[trigger] pending@[m]).0@),
                forall|j: int|
                    0 <= j < root.dependencies@.len() ==> req_in(
                        self.visited@,
                        (#[trigger] root.dependencies@[j]).0@,
                        root.dependencies@[j].1@,
                    ),
                forall|j: int|
                    0 <= j < root.dev_dependencies@.len() ==> req_in(
                        self.visited@,
                        (#[trigger] root.dev_dependencies@[j]).0@,
                        root.dev_dependencies@[j].1@,
                    ),
            decreases u.difference(req_set(self.visited@)).len() * 2 + queue_items(q).len() + (
            if queue_empty {
                0int
            } else {
                1int
            }),
        {
            let ghost q_head = queue_items(q);
            match queue_pop(&mut q) {
                None => {
                    queue_empty = true;
                },
                Some((name, range)) => {
                    proof {
                        assert forall|n2: Seq<char>, r2: Seq<char>| #[trigger] req_in(
                            queue_items(q),
                            n2,
                            r2,
                        ) implies req_in(q_head, n2, r2) by {
                            let i = choose|i: int|
                                0 <= i < queue_items(q).len() && (#[trigger] queue_items(q)[i]).0@
                                    == n2 && queue_items(q)[i].1@ == r2;
                            assert(q_head[i + 1] == queue_items(q)[i]);
                        }
                        assert((q_head[0]).0@ == name@ && (q_head[0]).1@ == range@);
                        assert(req_in(q_head, name@, range@));
                        assert(req_in(self.visited@, name@, range@));
                        assert forall|n2: Seq<char>, r2: Seq<char>| #[trigger] req_in(
                            q_head,
                            n2,
                            r2,
                        ) && !(n2 == name@ && r2 == range@) implies req_in(
                            queue_items(q),
                            n2,
                            r2,
                        ) by {
                            let i = choose|i: int|
                                0 <= i < q_head.len() && (#[trigger] q_head[i]).0@ == n2
                                    && q_head[i].1@ == r2;
                            assert(i != 0);
                            assert(queue_items(q)[i - 1] == q_head[i]);
                        }
                    }
                    match self.resolve_package(&name, &range, registry) {
                        Ok(pkg) => {
                            let ghost g0 = u.difference(req_set(self.visited@)).len() * 2
                                + queue_items(q).len();
                            let ghost nodes_snap = nodes@;
                            let ghost pending_snap = pending@;
                            let dn = pkg.dependencies.len();
                            let mut j: usize = 0;
                            while j < dn
                                invariant
                                    dn == pkg.dependencies@.len(),
                                    0 <= j <= dn,
                                    self.wf(),
                                    registry.wf(),
                                    cache_ok(self.package_cache, *registry),
                                    u == req_universe(*registry),
                                    u.finite(),
                                    dep_pairs_in(pkg.dependencies@, u),
                                    nodes@ == nodes_snap,
                                    pending@ == pending_snap,
                                    u.difference(req_set(self.visited@)).len() * 2 + queue_items(
                                        q,
                                    ).len() <= g0,
                                    forall|n2: Seq<char>, r2: Seq<char>|
                                        #[trigger] req_in(queue_items(q), n2, r2) ==> req_in(
                                            self.visited@,
                                            n2,
                                            r2,
                                        ),
                                    forall|n2: Seq<char>, r2: Seq<char>|
                                        #[trigger] req_in(self.visited@, n2, r2) && !(n2 == name@
                                            && r2 == range@) ==> req_in(queue_items(q), n2, r2)
                                            || request_settled(
                                            nodes@,
                                            pending@,
                                            *registry,
                                            n2,
                                            r2,
                                        ),
                                    req_in(self.visited@, name@, range@),
                                    forall|m: int|
                                        0 <= m < j ==> req_in(
                                            self.visited@,
                                            (#[trigger] pkg.dependencies@[m]).0@,
                                            pkg.dependencies@[m].1@,
                                        ),
                                    forall|k: Seq<char>, j2: int|
                                        #![trigger value_of(nodes@, k).dependencies@[j2]]
                                        has_key(nodes@, k) && 0 <= j2 < value_of(
                                            nodes@,
                                            k,
                                        ).dependencies@.len() ==> req_in(
                                            self.visited@,
                                            value_of(nodes@, k).dependencies@[j2].0@,
                                            value_of(nodes@, k).dependencies@[j2].1@,
                                        ),
                                    forall|j2: int|
                                        0 <= j2 < root.dependencies@.len() ==> req_in(
                                            self.visited@,
                                            (#[trigger] root.dependencies@[j2]).0@,
                                            root.dependencies@[j2].1@,
                                        ),
                                    forall|j2: int|
                                        0 <= j2 < root.dev_dependencies@.len() ==> req_in(
                                            self.visited@,
                                            (#[trigger] root.dev_dependencies@[j2]).0@,
                                            root.dev_dependencies@[j2].1@,
                                        ),
                                decreases dn - j,
                            {
                                let dep_name = pkg.dependencies[j].0.clone();
                                let dep_range = pkg.dependencies[j].1.clone();
                                if !req_list_contains(&self.visited, &dep_name, &dep_range) {
                                    let ghost v0 = self.visited@;
                                    let ghost q0 = queue_items(q);
                                    proof {
                                        assert(u.contains((dep_name@, dep_range@)));
                                        assert(!req_set(v0).contains((dep_name@, dep_range@)));
                                        u.lemma_set_insert_diff_decreases(
                                            req_set(v0),
                                            (dep_name@, dep_range@),
                                        );
                                    }
                                    self.visited.push((dep_name.clone(), dep_range.clone()));
                                    queue_push(&mut q, dep_name, dep_range);
                                    proof {
                                        let x = (
                                            pkg.dependencies@[j as int].0,
                                            pkg.dependencies@[j as int].1,
                                        );
                                        assert(self.visited@ == v0.push(x));
                                        assert(queue_items(q) == q0.push(x));
                                        assert forall|n2: Seq<char>, r2: Seq<char>|
                                            #[trigger] req_in(self.visited@, n2, r2) implies (
                                        req_in(v0, n2, r2) || (n2 == x.0@ && r2 == x.1@)) by {
                                            lemma_req_in_push(v0, x, n2, r2);
                                        }
                                        assert forall|n2: Seq<char>, r2: Seq<char>|
                                            #[trigger] req_in(v0, n2, r2) implies req_in(
                                            self.visited@,
                                            n2,
                                            r2,
                                        ) by {
                                            lemma_req_in_push(v0, x, n2, r2);
                                        }
                                        assert forall|n2: Seq<char>, r2: Seq<char>|
                                            #[trigger] req_in(queue_items(q), n2, r2) implies (
                                        req_in(q0, n2, r2) || (n2 == x.0@ && r2 == x.1@)) by {
                                            lemma_req_in_push(q0, x, n2, r2);
                                        }
                                        assert forall|n2: Seq<char>, r2: Seq<char>|
                                            #[trigger] req_in(q0, n2, r2) implies req_in(
                                            queue_items(q),
                                            n2,
                                            r2,
                                        ) by {
                                            lemma_req_in_push(q0, x, n2, r2);
                                        }
                                        assert(req_in(queue_items(q), x.0@, x.1@)) by {
                                            lemma_req_in_push(q0, x, x.0@, x.1@);
                                        }
                                        assert(req_in(self.visited@, x.0@, x.1@)) by {
                                            lemma_req_in_push(v0, x, x.0@, x.1@);
                                        }
                                        assert(req_set(self.visited@) =~= req_set(v0).insert(
                                            (x.0@, x.1@),
                                        ));
                                    }
                                }
                                j = j + 1;
                            }
                            // place the node under its identity key
                            let key = make_key(pkg.name.as_str(), pkg.version.as_str());
                            let ghost keyg = key@;
                            let ghost pkgg = pkg;
                            let ghost nodes0 = nodes@;
                            if !kv_contains(&nodes, &key) {
                                kv_set(&mut nodes, key, pkg);
                                proof {
                                    assert forall|k: Seq<char>| #[trigger] has_key(nodes@, k)
                                        implies {
                                        let p = value_of(nodes@, k);
                                        k == pkg_key(p.name@, p.version@) && p.wf() && sv_ok(
                                            p.version@,
                                        ) && pkg_matches_record(*registry, p) && (forall|
                                            j2: int,
                                        |
                                            0 <= j2 < p.dependencies@.len() ==> req_in(
                                                self.visited@,
                                                (#[trigger] p.dependencies@[j2]).0@,
                                                p.dependencies@[j2].1@,
                                            ))
                                    } by {
                                        if k == keyg {
                                            assert(value_of(nodes@, k) == pkgg);
                                        } else {
                                            assert(has_key(nodes0, k));
                                            assert(value_of(nodes@, k) == value_of(nodes0, k));
                                        }
                                    }
                                    assert(satisfied_in(nodes@, name@, range@)) by {
                                        assert(has_key(nodes@, keyg));
                                        assert(value_of(nodes@, keyg) == pkgg);
                                    }
                                }
                            } else {
                                proof {
                                    assert(satisfied_in(nodes@, name@, range@)) by {
                                        assert(has_key(nodes@, keyg));
                                        let p = value_of(nodes@, keyg);
                                        assert(keyg == pkg_key(p.name@, p.version@));
                                        assert(keyg == pkg_key(pkgg.name@, pkgg.version@));
                                        lemma_pkg_key_injective(
                                            p.name@,
                                            p.version@,
                                            pkgg.name@,
                                            pkgg.version@,
                                        );
                                    }
                                }
                            }
                            proof {
                                assert forall|a: Seq<char>, b: Seq<char>| request_settled(
                                    nodes_snap,
                                    pending_snap,
                                    *registry,
                                    a,
                                    b,
                                ) implies request_settled(
                                    nodes@,
                                    pending@,
                                    *registry,
                                    a,
                                    b,
                                ) by {
                                    if satisfied_in(nodes_snap, a, b) {
                                        let k = choose|k: Seq<char>|
                                            #[trigger] has_key(nodes_snap, k) && value_of(
                                                nodes_snap,
                                                k,
                                            ).name@ == a && sv_valid(
                                                value_of(nodes_snap, k).version@,
                                            ) && range_admits(
                                                b,
                                                value_of(nodes_snap, k).version@,
                                            );
                                        assert(has_key(nodes@, k));
                                        assert(value_of(nodes@, k) == value_of(nodes_snap, k));
                                    }
                                }
                            }
                        },
                        Err(e) => {
                            match e {
                                ResolveError::MetadataNotFetched { name: n2 } => {
                                    let ghost p0 = pending@;
                                    pending.push((n2, range));
                                    proof {
                                        assert(pending@[pending@.len() - 1].0@ == name@);
                                        assert(req_in(pending@, name@, range@));
                                        assert forall|a: Seq<char>, b: Seq<char>|
                                            #[trigger] req_in(p0, a, b) implies req_in(
                                            pending@,
                                            a,
                                            b,
                                        ) by {
                                            lemma_req_in_push(
                                                p0,
                                                (pending@[pending@.len() - 1].0,
                                                pending@[pending@.len() - 1].1),
                                                a,
                                                b,
                                            );
                                            assert(pending@ == p0.push(
                                                (pending@[pending@.len() - 1].0,
                                                pending@[pending@.len() - 1].1),
                                            ));
                                        }
                                    }
                                },
                                ResolveError::NoMatchingVersion { name: _n2, range: _r2 } => {
                                },
                                ResolveError::MetadataUnavailable { name: _n2 } => {
                                },
                            }
                        },
                    }
                },
            }
        }
        let tree = DependencyTree { root: root.clone(), dependencies: nodes };
        proof {
            assert forall|a: Seq<char>, b: Seq<char>| #[trigger] edge_in(
                tree.dependencies@,
                a,
                b,
            ) implies request_settled(tree.dependencies@, pending@, *registry, a, b) by {
                let (k, j): (Seq<char>, int) = choose|k: Seq<char>, j: int|
                    #![trigger value_of(tree.dependencies@, k).dependencies@[j]]
                    has_key(tree.dependencies@, k) && 0 <= j < value_of(
                        tree.dependencies@,
                        k,
                    ).dependencies@.len() && value_of(tree.dependencies@, k).dependencies@[j].0@
                        == a && value_of(tree.dependencies@, k).dependencies@[j].1@ == b;
                assert(req_in(
                    self.visited@,
                    value_of(tree.dependencies@, k).dependencies@[j].0@,
                    value_of(tree.dependencies@, k).dependencies@[j].1@,
                ));
            }
        }
        (tree, pending)
    }
}

/// The text `x` occurs in the string list.
pub open spec fn str_in(s: Seq<String>, x: Seq<char>) -> bool {
    exists|i: int| 0 <= i < s.len() && (#[trigger] s[i])@ == x
}

/// Whether the string list contains `x`.
pub fn str_list_contains(s: &Vec<String>, x: &String) -> (r: bool)
    ensures
        r == str_in(s@, x@),
{
    let n = s.len();
    let mut i: usize = 0;
    while i < n
        invariant
            n == s@.len(),
            0 <= i <= n,
            forall|m: int| 0 <= m < i ==> (#[trigger] s@[m])@ != x@,
        decreases n - i,
    {
        if s[i] == *x {
            return true;
        }
        i = i + 1;
    }
    false
}

/// The key-level reading of `deps_rewritten`: keys and their presence
/// are unchanged; the value at `name` becomes `pv` when rewriting,
/// every other value is untouched.
proof fn lemma_deps_rewritten_kv(
    d1: Seq<(String, String)>,
    d0: Seq<(String, String)>,
    rewrite: bool,
    name: Seq<char>,
    pv: Seq<char>,
)
    requires
        deps_rewritten(d1, d0, rewrite, name, pv),
        distinct_keys(d0),
    ensures
        distinct_keys(d1),
        forall|q: Seq<char>| #[trigger] has_key(d1, q) <==> has_key(d0, q),
        forall|q: Seq<char>|
            q != name && #[trigger] has_key(d0, q) ==> value_of(d1, q) == value_of(d0, q),
        rewrite && has_key(d0, name) ==> value_of(d1, name)@ == pv,
        !rewrite && has_key(d0, name) ==> value_of(d1, name) == value_of(d0, name),
{
    assert forall|a: int, b: int| 0 <= a < b < d1.len() implies (#[trigger] d1[a]).0@ != (
    #[trigger] d1[b]).0@ by {
        assert(d1[a].0 == d0[a].0 && d1[b].0 == d0[b].0);
    }
    assert forall|q: Seq<char>| #[trigger] has_key(d1, q) implies has_key(d0, q) by {
        let m = choose|m: int| 0 <= m < d1.len() && (#[trigger] d1[m]).0@ == q;
        assert(d0[m].0@ == q);
    }
    assert forall|q: Seq<char>| #[trigger] has_key(d0, q) implies has_key(d1, q) by {
        let m = choose|m: int| 0 <= m < d0.len() && (#[trigger] d0[m]).0@ == q;
        assert(d1[m].0@ == q);
    }
    assert forall|q: Seq<char>| q != name && #[trigger] has_key(d0, q) implies value_of(
        d1,
        q,
    ) == value_of(d0, q) by {
        let m = choose|m: int| 0 <= m < d0.len() && (#[trigger] d0[m]).0@ == q;
        lemma_value_of_distinct(d0, q, m);
        assert(d1[m].0@ == q);
        lemma_value_of_distinct(d1, q, m);
    }
    if has_key(d0, name) {
        let m = choose|m: int| 0 <= m < d0.len() && (#[trigger] d0[m]).0@ == name;
        lemma_value_of_distinct(d0, name, m);
        assert(d1[m].0@ == name);
        lemma_value_of_distinct(d1, name, m);
    }
}

/// Whether the text contains a `+`.
fn has_plus(s: &str) -> (r: bool)
    ensures
        r == exists|i: int| 0 <= i < s@.len() && s@[i] == '+',
{
    let n = s.unicode_len();
    let mut i: usize = 0;
    while i < n
        invariant
            n == s@.len(),
            0 <= i <= n,
            forall|m: int| 0 <= m < i ==> s@[m] != '+',
        decreases n - i,
    {
        if s.get_char(i) == '+' {
            return true;
        }
        i = i + 1;
    }
    false
}

/// The entry at index `i` of a well-formed node list carries its own
/// identity key and a well-formed package.
proof fn lemma_node_at(s: Seq<(String, Package)>, i: int)
    requires
        node_list_wf(s),
        0 <= i < s.len(),
    ensures
        has_key(s, s[i].0@),
        value_of(s, s[i].0@) == s[i].1,
        s[i].0@ == pkg_key(s[i].1.name@, s[i].1.version@),
        s[i].1.wf(),
        sv_ok(s[i].1.version@),
{
    lemma_value_of_distinct(s, s[i].0@, i);
}

/// Some surviving node's dependency edge on `name` accepts both `lv`
/// and `pv` (leniently): the witness that lets the post-pass collapse
/// `lv` onto `pv`.
pub open spec fn collapsible(
    nodes: Seq<(String, Package)>,
    name: Seq<char>,
    lv: Seq<char>,
    pv: Seq<char>,
) -> bool {
    exists|k: Seq<char>|
        #[trigger] has_key(nodes, k) && has_key(value_of(nodes, k).dependencies@, name)
            && range_admits(value_of(value_of(nodes, k).dependencies@, name)@, lv)
            && range_admits(value_of(value_of(nodes, k).dependencies@, name)@, pv)
}

/// `pv` is the highest version resolved for `name`: some node of the
/// name carries it and every node of the name is at or below it.
pub open spec fn highest_of(
    nodes: Seq<(String, Package)>,
    name: Seq<char>,
    pv: Seq<char>,
) -> bool {
    &&& (exists|k: Seq<char>|
        #[trigger] has_key(nodes, k) && value_of(nodes, k).name@ == name && value_of(
            nodes,
            k,
        ).version@ == pv)
    &&& (forall|k: Seq<char>|
        #[trigger] has_key(nodes, k) && value_of(nodes, k).name@ == name ==> value_of(
            nodes,
            k,
        ).version@ == pv || sv_le(value_of(nodes, k).version@, pv))
}

/// No version of the name carries build metadata (`+`); a version text
/// with build metadata, read as a range, does not distinguish build
/// variants, so the stability statement leaves such names out.
pub open spec fn plus_free_name(nodes: Seq<(String, Package)>, name: Seq<char>) -> bool {
    forall|k: Seq<char>|
        #[trigger] has_key(nodes, k) && value_of(nodes, k).name@ == name ==> (forall|i: int|
            0 <= i < value_of(nodes, k).version@.len() ==> value_of(nodes, k).version@[i]
                != '+')
}

/// The post-pass cannot compress the name further: no surviving edge on
/// `name` accepts a retained lower version together with the highest
/// surviving one (stated for names free of build metadata).
pub open spec fn dedup_stable(nodes: Seq<(String, Package)>, name: Seq<char>) -> bool {
    forall|kl: Seq<char>, pv: Seq<char>|
        #![trigger has_key(nodes, kl), highest_of(nodes, name, pv)]
        has_key(nodes, kl) && value_of(nodes, kl).name@ == name && highest_of(nodes, name, pv)
            && value_of(nodes, kl).version@ != pv && plus_free_name(nodes, name)
            ==> !collapsible(nodes, name, value_of(nodes, kl).version@, pv)
}

/// No name offers the pass anything to collapse: no edge accepts a
/// lower resolved version of a name together with its highest one.
pub open spec fn no_collapse_possible(nodes: Seq<(String, Package)>) -> bool {
    forall|kl: Seq<char>, pv: Seq<char>|
        #![trigger has_key(nodes, kl), highest_of(nodes, value_of(nodes, kl).name@, pv)]
        has_key(nodes, kl) && highest_of(nodes, value_of(nodes, kl).name@, pv) && value_of(
            nodes,
            kl,
        ).version@ != pv ==> !collapsible(
            nodes,
            value_of(nodes, kl).name@,
            value_of(nodes, kl).version@,
            pv,
        )
}

/// Every survivor's dependency map changes only at `name`: entries on
/// other names keep their presence and their text.
pub open spec fn deps_preserved_except(
    out: Seq<(String, Package)>,
    input: Seq<(String, Package)>,
    name: Seq<char>,
) -> bool {
    forall|k: Seq<char>, q: Seq<char>|
        #![trigger has_key(value_of(out, k).dependencies@, q)]
        has_key(out, k) ==> ((has_key(value_of(out, k).dependencies@, q) <==> has_key(
            value_of(input, k).dependencies@,
            q,
        )) && (q != name && has_key(value_of(input, k).dependencies@, q) ==> value_of(
            value_of(out, k).dependencies@,
            q,
        ) == value_of(value_of(input, k).dependencies@, q)))
}

/// The node lists agree position by position, text for text.
pub open spec fn same_nodes(a: Seq<(String, Package)>, b: Seq<(String, Package)>) -> bool {
    a.len() == b.len() && (forall|i: int|
        0 <= i < a.len() ==> (#[trigger] a[i]).0@ == b[i].0@ && pkg_eqv(a[i].1, b[i].1))
}

/// `d1` is `d0` with every value bound to `name` replaced by `pv` (when
/// `rewrite` holds), and untouched otherwise.
spec fn deps_rewritten(
    d1: Seq<(String, String)>,
    d0: Seq<(String, String)>,
    rewrite: bool,
    name: Seq<char>,
    pv: Seq<char>,
) -> bool {
    d1.len() == d0.len() && (forall|m: int|
        0 <= m < d1.len() ==> (#[trigger] d1[m]).0 == d0[m].0 && (if rewrite && d0[m].0@
            == name {
            d1[m].1@ == pv
        } else {
            d1[m].1 == d0[m].1
        }))
}

/// Compresses one name's group: when at least two versions of `name`
/// were resolved and some caller's range accepts a lower version and the
/// highest one interchangeably, the lower version is removed and every
/// dependency edge on `name` is rewritten to the highest version.
/// Returns the new node list and whether anything was removed.
#[verifier::rlimit(100)]
fn dedup_group(nodes: &Vec<(String, Package)>, name: &String) -> (r: (
    Vec<(String, Package)>,
    bool,
))
    requires
        node_list_wf(nodes@),
    ensures
        node_list_wf(r.0@),
        // surviving nodes come from the input, with their identity
        forall|k: Seq<char>|
            #[trigger] has_key(r.0@, k) ==> has_key(nodes@, k) && value_of(r.0@, k).name@
                == value_of(nodes@, k).name@ && value_of(r.0@, k).version@ == value_of(
                nodes@,
                k,
            ).version@,
        // when nothing was removed, every node survives
        !r.1 ==> (forall|k: Seq<char>| #[trigger] has_key(nodes@, k) ==> has_key(r.0@, k)),
        // nodes of other names always survive
        forall|k: Seq<char>|
            #[trigger] has_key(nodes@, k) && value_of(nodes@, k).name@ != name@ ==> has_key(
                r.0@,
                k,
            ),
        // surviving edges: on `name` after a removal they are satisfied
        // by a surviving node; otherwise they are carried over
        forall|a: Seq<char>, b: Seq<char>|
            #[trigger] edge_in(r.0@, a, b) ==> if r.1 && a == name@ {
                satisfied_in(r.0@, a, b)
            } else {
                edge_in(nodes@, a, b)
            },
        // after a removal, the name survives at its preferred version
        r.1 ==> name_in(r.0@, name@),
        // nothing removed: the node list is unchanged, text for text
        !r.1 ==> same_nodes(r.0@, nodes@),
        // a stable input removes nothing
        no_collapse_possible(nodes@) ==> !r.1,
        // a node of the name is dropped exactly when some surviving
        // caller's range accepts its version together with the highest
        // one, and every surviving edge on the name then pins the
        // highest version
        r.1 ==> (exists|pv2: Seq<char>|
            #![trigger highest_of(nodes@, name@, pv2)]
            highest_of(nodes@, name@, pv2) && (forall|k: Seq<char>|
                #[trigger] has_key(nodes@, k) ==> (has_key(r.0@, k) <==> !(value_of(
                    nodes@,
                    k,
                ).name@ == name@ && value_of(nodes@, k).version@ != pv2 && collapsible(
                    nodes@,
                    name@,
                    value_of(nodes@, k).version@,
                    pv2,
                )))) && (forall|a: Seq<char>, b2: Seq<char>|
                #[trigger] edge_in(r.0@, a, b2) && a == name@ ==> b2 == pv2)),
        // the name's survivors cannot be collapsed further
        dedup_stable(r.0@, name@),
        // a survivor's dependency map changes only at `name`
        deps_preserved_except(r.0@, nodes@, name@),
{
    let n = nodes.len();
    // the group: indices of the nodes carrying `name`
    let mut group: Vec<usize> = Vec::new();
    let mut i: usize = 0;
    while i < n
        invariant
            n == nodes@.len(),
            0 <= i <= n,
            forall|m: int| 0 <= m < group@.len() ==> (#[trigger] group@[m]) < i,
            forall|m: int|
                0 <= m < group@.len() ==> nodes@[(#[trigger] group@[m]) as int].1.name@ == name@,
            forall|i2: int|
                0 <= i2 < i && (#[trigger] nodes@[i2]).1.name@ == name@ ==> (exists|m: int|
                    0 <= m < group@.len() && (#[trigger] group@[m]) as int == i2),
        decreases n - i,
    {
        if nodes[i].1.name == *name {
            let ghost g0 = group@;
            group.push(i);
            proof {
                assert forall|i2: int|
                    0 <= i2 < i + 1 && (#[trigger] nodes@[i2]).1.name@ == name@ implies (
                exists|m: int| 0 <= m < group@.len() && (#[trigger] group@[m]) as int
                    == i2) by {
                    if i2 < i {
                        let m = choose|m: int|
                            0 <= m < g0.len() && (#[trigger] g0[m]) as int == i2;
                        assert((group@[m]) as int == i2);
                    } else {
                        assert((group@[group@.len() - 1]) as int == i2);
                    }
                }
            }
        }
        i = i + 1;
    }
    let mut pi: usize = 0;
    let mut pv: String = String::new();
    let mut removed: Vec<String> = Vec::new();
    let mut rewrite = false;
    if group.len() > 1 {
        // the preferred (highest) version of the group
        pi = group[0];
        let mut g: usize = 1;
        proof {
            lemma_node_at(nodes@, pi as int);
        }
        while g < group.len()
            invariant
                n == nodes@.len(),
                node_list_wf(nodes@),
                1 <= g <= group@.len(),
                pi < n,
                nodes@[pi as int].1.name@ == name@,
                forall|m: int| 0 <= m < group@.len() ==> (#[trigger] group@[m]) < n,
                forall|m: int|
                    0 <= m < group@.len() ==> nodes@[(#[trigger] group@[m]) as int].1.name@
                        == name@,
                forall|m: int|
                    0 <= m < g ==> (nodes@[(#[trigger] group@[m]) as int].1.version@
                        == nodes@[pi as int].1.version@ || sv_le(
                        nodes@[group@[m] as int].1.version@,
                        nodes@[pi as int].1.version@,
                    )),
            decreases group@.len() - g,
        {
            let gi = group[g];
            proof {
                lemma_node_at(nodes@, gi as int);
                lemma_node_at(nodes@, pi as int);
            }
            let ghost oldpi = pi as int;
            if version_le(nodes[pi].1.version.as_str(), nodes[gi].1.version.as_str()) {
                pi = gi;
            }
            proof {
                assert forall|m: int| 0 <= m < g + 1 implies (nodes@[(
                #[trigger] group@[m]) as int].1.version@ == nodes@[pi as int].1.version@
                    || sv_le(
                    nodes@[group@[m] as int].1.version@,
                    nodes@[pi as int].1.version@,
                )) by {
                    lemma_node_at(nodes@, group@[m] as int);
                    if m < g {
                        assert(nodes@[group@[m] as int].1.version@ == nodes@[oldpi].1.version@
                            || sv_le(
                            nodes@[group@[m] as int].1.version@,
                            nodes@[oldpi].1.version@,
                        ));
                    }
                }
            }
            g = g + 1;
        }
        pv = nodes[pi].1.version.clone();
        proof {
            lemma_node_at(nodes@, pi as int);
        }
        // the preferred version text, read as a range, accepts itself
        let pv_valid = version_parses(pv.as_str());
        proof {
            assert(pv_valid);
            assert(svr_valid(pv@) && sv_matches(pv@, pv@));
        }
        // a rewritten edge must keep the closure: the preferred version
        // has to satisfy its own version text read as a range
        if range_parses(pv.as_str()) && range_matches(pv.as_str(), pv.as_str()) {
            // versions to drop: lower ones that some caller's range
            // accepts interchangeably with the preferred version
            let mut g2: usize = 0;
            while g2 < group.len()
                invariant
                    n == nodes@.len(),
                    node_list_wf(nodes@),
                    pi < n,
                    sv_ok(pv@),
                    forall|m: int| 0 <= m < group@.len() ==> (#[trigger] group@[m]) < n,
                    forall|m: int|
                        0 <= m < group@.len() ==> nodes@[(#[trigger] group@[m]) as int].1.name@
                            == name@,
                    forall|i2: int|
                        0 <= i2 < n && (#[trigger] nodes@[i2]).1.name@ == name@ ==> (exists|
                            m: int,
                        |
                            0 <= m < group@.len() && (#[trigger] group@[m]) as int == i2),
                    forall|m: int|
                        0 <= m < group@.len() ==> (nodes@[(#[trigger] group@[m]) as int].1.version@
                            == pv@ || sv_le(nodes@[group@[m] as int].1.version@, pv@)),
                    nodes@[pi as int].1.version@ == pv@,
                    nodes@[pi as int].1.name@ == name@,
                    0 <= g2 <= group@.len(),
                    forall|m: int|
                        0 <= m < removed@.len() ==> (#[trigger] removed@[m])@ != pv@ && sv_ok(
                            (removed@[m])@,
                        ) && collapsible(nodes@, name@, (removed@[m])@, pv@) && (exists|
                            m2: int,
                        |
                            0 <= m2 < group@.len()
                                && nodes@[(#[trigger] group@[m2]) as int].1.version@ == (
                            removed@[m])@),
                    forall|m: int|
                        0 <= m < g2 ==> ((#[trigger] group@[m]) == pi || str_in(
                            removed@,
                            nodes@[group@[m] as int].1.version@,
                        ) || !collapsible(
                            nodes@,
                            name@,
                            nodes@[group@[m] as int].1.version@,
                            pv@,
                        )),
                    no_collapse_possible(nodes@) ==> removed@.len() == 0,
                decreases group@.len() - g2,
            {
                let gi = group[g2];
                proof {
                    lemma_node_at(nodes@, gi as int);
                }
                if gi != pi {
                    let lv = &nodes[gi].1.version;
                    proof {
                        lemma_node_at(nodes@, pi as int);
                        if lv@ == pv@ {
                            assert(nodes@[gi as int].0@ == nodes@[pi as int].0@);
                            assert(false);
                        }
                    }
                    let mut found = false;
                    let mut ci: usize = 0;
                    while ci < n
                        invariant
                            n == nodes@.len(),
                            node_list_wf(nodes@),
                            sv_ok(pv@),
                            sv_ok(lv@),
                            0 <= ci <= n,
                            found <==> (exists|c2: int|
                                0 <= c2 < ci && has_key(
                                    (#[trigger] nodes@[c2]).1.dependencies@,
                                    name@,
                                ) && range_admits(
                                    value_of(nodes@[c2].1.dependencies@, name@)@,
                                    lv@,
                                ) && range_admits(
                                    value_of(nodes@[c2].1.dependencies@, name@)@,
                                    pv@,
                                )),
                        decreases n - ci,
                    {
                        proof {
                            lemma_node_at(nodes@, ci as int);
                        }
                        let ghost found0 = found;
                        if let Some(rtext) = kv_get(&nodes[ci].1.dependencies, name) {
                            if range_admits_version(rtext.as_str(), lv.as_str())
                                && range_admits_version(rtext.as_str(), pv.as_str()) {
                                found = true;
                                proof {
                                    assert(has_key(
                                        (#[trigger] nodes@[ci as int]).1.dependencies@,
                                        name@,
                                    ) && range_admits(
                                        value_of(nodes@[ci as int].1.dependencies@, name@)@,
                                        lv@,
                                    ) && range_admits(
                                        value_of(nodes@[ci as int].1.dependencies@, name@)@,
                                        pv@,
                                    ));
                                }
                            }
                        }
                        proof {
                            if found && !found0 {
                            } else if found0 {
                                let c2 = choose|c2: int|
                                    0 <= c2 < ci && has_key(
                                        (#[trigger] nodes@[c2]).1.dependencies@,
                                        name@,
                                    ) && range_admits(
                                        value_of(nodes@[c2].1.dependencies@, name@)@,
                                        lv@,
                                    ) && range_admits(
                                        value_of(nodes@[c2].1.dependencies@, name@)@,
                                        pv@,
                                    );
                            }
                        }
                        ci = ci + 1;
                    }
                    proof {
                        // the flag decides `collapsible` exactly
                        if found {
                            let c2 = choose|c2: int|
                                0 <= c2 < n && has_key(
                                    (#[trigger] nodes@[c2]).1.dependencies@,
                                    name@,
                                ) && range_admits(
                                    value_of(nodes@[c2].1.dependencies@, name@)@,
                                    lv@,
                                ) && range_admits(
                                    value_of(nodes@[c2].1.dependencies@, name@)@,
                                    pv@,
                                );
                            lemma_node_at(nodes@, c2);
                            assert(has_key(nodes@, nodes@[c2].0@) && has_key(
                                value_of(nodes@, nodes@[c2].0@).dependencies@,
                                name@,
                            ));
                            assert(collapsible(nodes@, name@, lv@, pv@));
                        } else if collapsible(nodes@, name@, lv@, pv@) {
                            let k = choose|k: Seq<char>|
                                #[trigger] has_key(nodes@, k) && has_key(
                                    value_of(nodes@, k).dependencies@,
                                    name@,
                                ) && range_admits(
                                    value_of(value_of(nodes@, k).dependencies@, name@)@,
                                    lv@,
                                ) && range_admits(
                                    value_of(value_of(nodes@, k).dependencies@, name@)@,
                                    pv@,
                                );
                            let c2 = choose|c2: int|
                                0 <= c2 < nodes@.len() && (#[trigger] nodes@[c2]).0@ == k;
                            lemma_value_of_distinct(nodes@, k, c2);
                            assert(has_key(nodes@[c2].1.dependencies@, name@));
                            assert(false);
                        }
                    }
                    if found {
                        let ghost r0 = removed@;
                        proof {
                            // a removal refutes stability of the input
                            if no_collapse_possible(nodes@) {
                                let gikey = nodes@[gi as int].0@;
                                assert(highest_of(nodes@, name@, pv@)) by {
                                    assert(has_key(nodes@, nodes@[pi as int].0@) && value_of(
                                        nodes@,
                                        nodes@[pi as int].0@,
                                    ).name@ == name@ && value_of(
                                        nodes@,
                                        nodes@[pi as int].0@,
                                    ).version@ == pv@);
                                    assert forall|k: Seq<char>| #[trigger] has_key(nodes@, k)
                                        && value_of(nodes@, k).name@ == name@ implies (
                                    value_of(nodes@, k).version@ == pv@ || sv_le(
                                        value_of(nodes@, k).version@,
                                        pv@,
                                    )) by {
                                        let c2 = choose|c2: int|
                                            0 <= c2 < nodes@.len() && (#[trigger] nodes@[c2]).0@
                                                == k;
                                        lemma_value_of_distinct(nodes@, k, c2);
                                        let m = choose|m: int|
                                            0 <= m < group@.len() && (#[trigger] group@[m]) as int
                                                == c2;
                                        assert(nodes@[group@[m] as int].1.version@ == pv@
                                            || sv_le(
                                            nodes@[group@[m] as int].1.version@,
                                            pv@,
                                        ));
                                    }
                                }
                                assert(has_key(nodes@, gikey));
                                assert(value_of(nodes@, gikey).name@ == name@);
                                assert(highest_of(
                                    nodes@,
                                    value_of(nodes@, gikey).name@,
                                    pv@,
                                ));
                                assert(value_of(nodes@, gikey).version@ != pv@);
                                assert(!collapsible(
                                    nodes@,
                                    value_of(nodes@, gikey).name@,
                                    value_of(nodes@, gikey).version@,
                                    pv@,
                                ));
                                assert(false);
                            }
                        }
                        removed.push(lv.clone());
                        proof {
                            assert((removed@[removed@.len() - 1])@ == lv@);
                            assert forall|m: int| 0 <= m < removed@.len() implies (
                            #[trigger] removed@[m])@ != pv@ && sv_ok((removed@[m])@)
                                && collapsible(nodes@, name@, (removed@[m])@, pv@) && (exists|
                                m2: int,
                            |
                                0 <= m2 < group@.len()
                                    && nodes@[(#[trigger] group@[m2]) as int].1.version@ == (
                                removed@[m])@) by {
                                if m < r0.len() {
                                    assert(removed@[m] == r0[m]);
                                } else {
                                    assert(nodes@[(group@[g2 as int]) as int].1.version@
                                        == lv@);
                                }
                            }
                            assert forall|m: int| 0 <= m < g2 + 1 implies ((
                            #[trigger] group@[m]) == pi || str_in(
                                removed@,
                                nodes@[group@[m] as int].1.version@,
                            ) || !collapsible(
                                nodes@,
                                name@,
                                nodes@[group@[m] as int].1.version@,
                                pv@,
                            )) by {
                                if m < g2 {
                                    if str_in(r0, nodes@[group@[m] as int].1.version@) {
                                        let w = choose|w: int|
                                            0 <= w < r0.len() && (#[trigger] r0[w])@
                                                == nodes@[group@[m] as int].1.version@;
                                        assert((removed@[w])@
                                            == nodes@[group@[m] as int].1.version@);
                                    }
                                } else {
                                    assert((removed@[removed@.len() - 1])@
                                        == nodes@[group@[m] as int].1.version@);
                                }
                            }
                        }
                    } else {
                        proof {
                            assert forall|m: int| 0 <= m < g2 + 1 implies ((
                            #[trigger] group@[m]) == pi || str_in(
                                removed@,
                                nodes@[group@[m] as int].1.version@,
                            ) || !collapsible(
                                nodes@,
                                name@,
                                nodes@[group@[m] as int].1.version@,
                                pv@,
                            )) by {}
                        }
                    }
                } else {
                    proof {
                        assert forall|m: int| 0 <= m < g2 + 1 implies ((
                        #[trigger] group@[m]) == pi || str_in(
                            removed@,
                            nodes@[group@[m] as int].1.version@,
                        ) || !collapsible(
                            nodes@,
                            name@,
                            nodes@[group@[m] as int].1.version@,
                            pv@,
                        )) by {}
                    }
                }
                g2 = g2 + 1;
            }
            rewrite = removed.len() > 0;
        }
    }
    // rebuild: drop the removed versions of `name`; after a removal,
    // rewrite every edge on `name` to the preferred version
    let mut out: Vec<(String, Package)> = Vec::new();
    let mut b: usize = 0;
    while b < n
        invariant
            n == nodes@.len(),
            node_list_wf(nodes@),
            group@.len() > 1 ==> pi < n && sv_ok(pv@) && svr_valid(pv@) && sv_matches(pv@, pv@)
                && nodes@[pi as int].1.version@ == pv@ && nodes@[pi as int].1.name@ == name@
                && (forall|m: int|
                0 <= m < group@.len() ==> (nodes@[(#[trigger] group@[m]) as int].1.version@
                    == pv@ || sv_le(nodes@[group@[m] as int].1.version@, pv@))),
            rewrite ==> group@.len() > 1,
            forall|m: int| 0 <= m < group@.len() ==> (#[trigger] group@[m]) < n,
            forall|m: int|
                0 <= m < group@.len() ==> nodes@[(#[trigger] group@[m]) as int].1.name@
                    == name@,
            forall|i2: int|
                0 <= i2 < n && (#[trigger] nodes@[i2]).1.name@ == name@ ==> (exists|m: int|
                    0 <= m < group@.len() && (#[trigger] group@[m]) as int == i2),
            forall|m: int|
                0 <= m < removed@.len() ==> (#[trigger] removed@[m])@ != pv@ && sv_ok(
                    (removed@[m])@,
                ) && collapsible(nodes@, name@, (removed@[m])@, pv@),
            group@.len() > 1 ==> (forall|m: int|
                0 <= m < group@.len() ==> ((#[trigger] group@[m]) == pi || str_in(
                    removed@,
                    nodes@[group@[m] as int].1.version@,
                ) || !collapsible(nodes@, name@, nodes@[group@[m] as int].1.version@, pv@))),
            no_collapse_possible(nodes@) ==> removed@.len() == 0,
            !rewrite ==> removed@.len() == 0,
            rewrite ==> removed@.len() > 0,
            0 <= b <= n,
            node_list_wf(out@),
            forall|k: Seq<char>|
                #[trigger] has_key(out@, k) ==> (exists|m: int|
                    0 <= m < b && (#[trigger] nodes@[m]).0@ == k) && has_key(nodes@, k)
                    && value_of(out@, k).name@ == value_of(nodes@, k).name@ && value_of(
                    out@,
                    k,
                ).version@ == value_of(nodes@, k).version@,
            forall|m: int|
                0 <= m < b && !((#[trigger] nodes@[m]).1.name@ == name@ && str_in(
                    removed@,
                    nodes@[m].1.version@,
                )) ==> has_key(out@, nodes@[m].0@),
            forall|m: int|
                0 <= m < b && (#[trigger] nodes@[m]).1.name@ == name@ && str_in(
                    removed@,
                    nodes@[m].1.version@,
                ) ==> !has_key(out@, nodes@[m].0@),
            out@.len() <= b,
            forall|m: int|
                0 <= m < out@.len() ==> (exists|m2: int|
                    0 <= m2 < b && (#[trigger] out@[m]).0@ == (#[trigger] nodes@[m2]).0@),
            !rewrite ==> out@.len() == b && (forall|m: int|
                0 <= m < b ==> (#[trigger] out@[m]).0@ == nodes@[m].0@ && pkg_eqv(
                    out@[m].1,
                    nodes@[m].1,
                )),
            forall|k: Seq<char>|
                #[trigger] has_key(out@, k) ==> deps_rewritten(
                    value_of(out@, k).dependencies@,
                    value_of(nodes@, k).dependencies@,
                    rewrite,
                    name@,
                    pv@,
                ) && value_of(out@, k).dev_dependencies@ == value_of(
                    nodes@,
                    k,
                ).dev_dependencies@,
        decreases n - b,
    {
        proof {
            lemma_node_at(nodes@, b as int);
        }
        let ghost out_pre = out@;
        let skip = nodes[b].1.name == *name && str_list_contains(&removed, &nodes[b].1.version);
        if !skip {
            let ghost out0 = out@;
            let e_key = nodes[b].0.clone();
            let node = &nodes[b].1;
            let ghost deps0 = node.dependencies@;
            // copy the dependency map, rewriting edges on `name`
            let dlen = node.dependencies.len();
            let mut deps: Vec<(String, String)> = Vec::new();
            let mut m: usize = 0;
            while m < dlen
                invariant
                    dlen == deps0.len(),
                    deps0 == node.dependencies@,
                    0 <= m <= dlen,
                    deps@.len() == m,
                    forall|m2: int|
                        0 <= m2 < m ==> (#[trigger] deps@[m2]).0 == deps0[m2].0 && if rewrite
                            && deps0[m2].0@ == name@ {
                            deps@[m2].1@ == pv@
                        } else {
                            deps@[m2].1 == deps0[m2].1
                        },
                decreases dlen - m,
            {
                let dk = node.dependencies[m].0.clone();
                if rewrite && dk == *name {
                    deps.push((dk, pv.clone()));
                } else {
                    let dv = node.dependencies[m].1.clone();
                    deps.push((dk, dv));
                }
                m = m + 1;
            }
            let ghost depsv = deps@;
            proof {
                assert(distinct_keys(depsv)) by {
                    assert forall|a2: int, b2: int| 0 <= a2 < b2 < depsv.len() implies (
                    #[trigger] depsv[a2]).0@ != (#[trigger] depsv[b2]).0@ by {
                        assert(deps0[a2].0@ != deps0[b2].0@);
                    }
                }
            }
            let new_node = Package {
                name: node.name.clone(),
                version: node.version.clone(),
                dependencies: deps,
                dev_dependencies: clone_string_pairs(&node.dev_dependencies),
            };
            proof {
                if has_key(out0, e_key@) {
                    let m = choose|m: int|
                        0 <= m < b && (#[trigger] nodes@[m]).0@ == e_key@;
                    assert(nodes@[m].0@ != nodes@[b as int].0@);
                    assert(false);
                }
            }
            kv_set(&mut out, e_key, new_node);
            proof {
                let kb = nodes@[b as int].0@;
                assert(value_of(out@, kb) == new_node);
                assert(has_key(out@, kb));
                // positional facts of the append
                assert(out@ == out_pre.push((nodes@[b as int].0, new_node)));
                assert forall|m: int| 0 <= m < out@.len() implies (exists|m2: int|
                    0 <= m2 < b + 1 && (#[trigger] out@[m]).0@ == (#[trigger] nodes@[m2]).0@) by {
                    if m < out@.len() - 1 {
                        assert(out@[m] == out_pre[m]);
                        let m2 = choose|m2: int|
                            0 <= m2 < b && (#[trigger] out_pre[m]).0@ == (
                            #[trigger] nodes@[m2]).0@;
                        assert(out@[m].0@ == nodes@[m2].0@);
                    } else {
                        assert(out@[m].0@ == nodes@[b as int].0@);
                    }
                }
                if !rewrite {
                    assert(out@.len() == b + 1);
                    assert forall|m: int| 0 <= m < b + 1 implies (#[trigger] out@[m]).0@
                        == nodes@[m].0@ && pkg_eqv(out@[m].1, nodes@[m].1) by {
                        if m < b {
                            assert(out@[m] == out_pre[m]);
                        } else {
                            assert(out@[m].1 == new_node);
                            assert forall|m2: int| 0 <= m2 < depsv.len() implies (
                            #[trigger] depsv[m2]) == deps0[m2] by {
                                assert(depsv[m2].0 == deps0[m2].0);
                                assert(depsv[m2].1 == deps0[m2].1);
                            }
                            assert(depsv =~= deps0);
                        }
                    }
                }
                assert forall|m: int|
                    0 <= m < b + 1 && (#[trigger] nodes@[m]).1.name@ == name@ && str_in(
                        removed@,
                        nodes@[m].1.version@,
                    ) implies !has_key(out@, nodes@[m].0@) by {
                    assert(m != b);
                    assert(nodes@[m].0@ != nodes@[b as int].0@);
                    assert(!has_key(out_pre, nodes@[m].0@));
                }
                // the stored node keeps the identity and is well formed
                assert(new_node.name@ == nodes@[b as int].1.name@);
                assert(new_node.version@ == nodes@[b as int].1.version@);
                assert(new_node.wf() && sv_ok(new_node.version@) && kb == pkg_key(
                    new_node.name@,
                    new_node.version@,
                ));
                // its edges obey the rewrite discipline
                assert(value_of(out@, kb).dependencies@ == depsv);
                assert(value_of(nodes@, kb).dependencies@ == deps0);
                assert(deps_rewritten(depsv, deps0, rewrite, name@, pv@));
                // old entries of `out` are untouched
                assert forall|k: Seq<char>| #[trigger] has_key(out@, k) implies deps_rewritten(
                    value_of(out@, k).dependencies@,
                    value_of(nodes@, k).dependencies@,
                    rewrite,
                    name@,
                    pv@,
                ) by {
                    if k != kb {
                        assert(has_key(out0, k));
                        assert(value_of(out@, k) == value_of(out0, k));
                    }
                }
            }
        }
        proof {
            if skip {
                assert(out@ == out_pre);
                if has_key(out@, nodes@[b as int].0@) {
                    let m2 = choose|m2: int|
                        0 <= m2 < b && (#[trigger] nodes@[m2]).0@ == nodes@[b as int].0@;
                    assert(nodes@[m2].0@ != nodes@[b as int].0@);
                    assert(false);
                }
                assert forall|k: Seq<char>| #[trigger] has_key(out@, k) implies
                    deps_rewritten(
                    value_of(out@, k).dependencies@,
                    value_of(nodes@, k).dependencies@,
                    rewrite,
                    name@,
                    pv@,
                ) by {
                    assert(has_key(out_pre, k));
                    assert(value_of(out_pre, k) == value_of(out@, k));
                }
            }
        }
        b = b + 1;
    }
    // the survivors of the name cannot be collapsed onto the preferred
    // version: re-check each one against the preferred version's text
    let pv_plus = has_plus(pv.as_str());
    if group.len() > 1 && !pv_plus {
        let on = out.len();
        let mut j: usize = 0;
        while j < on
            invariant
                on == out@.len(),
                n == nodes@.len(),
                node_list_wf(nodes@),
                node_list_wf(out@),
                group@.len() > 1,
                pi < n,
                sv_ok(pv@),
                svr_valid(pv@),
                nodes@[pi as int].1.version@ == pv@,
                nodes@[pi as int].1.name@ == name@,
                forall|i2: int|
                    0 <= i2 < n && (#[trigger] nodes@[i2]).1.name@ == name@ ==> (exists|m: int|
                        0 <= m < group@.len() && (#[trigger] group@[m]) as int == i2),
                forall|m: int| 0 <= m < group@.len() ==> (#[trigger] group@[m]) < n,
                forall|m: int|
                    0 <= m < group@.len() ==> (nodes@[(#[trigger] group@[m]) as int].1.version@
                        == pv@ || sv_le(nodes@[group@[m] as int].1.version@, pv@)),
                forall|k: Seq<char>|
                    #[trigger] has_key(out@, k) ==> has_key(nodes@, k) && value_of(
                        out@,
                        k,
                    ).name@ == value_of(nodes@, k).name@ && value_of(out@, k).version@
                        == value_of(nodes@, k).version@,
                forall|i2: int| 0 <= i2 < pv@.len() ==> pv@[i2] != '+',
                0 <= j <= on,
                forall|m: int|
                    0 <= m < j && (#[trigger] out@[m]).1.name@ == name@ ==> ((out@[m].1.version@
                        == pv@ || !sv_matches(pv@, out@[m].1.version@)) && (out@[m].1.version@
                        == pv@ || !sv_le(pv@, out@[m].1.version@))),
            decreases on - j,
        {
            proof {
                lemma_node_at(out@, j as int);
            }
            if out[j].1.name == *name && !(out[j].1.version == pv) {
                proof {
                    assert(has_key(nodes@, out@[j as int].0@));
                    let c2 = choose|c2: int|
                        0 <= c2 < nodes@.len() && (#[trigger] nodes@[c2]).0@ == out@[j as int].0@;
                    lemma_value_of_distinct(nodes@, out@[j as int].0@, c2);
                    assert(nodes@[c2].1.name@ == name@);
                    let m = choose|m: int|
                        0 <= m < group@.len() && (#[trigger] group@[m]) as int == c2;
                    assert(nodes@[group@[m] as int].1.version@ == pv@ || sv_le(
                        nodes@[group@[m] as int].1.version@,
                        pv@,
                    ));
                    assert(sv_le(out@[j as int].1.version@, pv@));
                }
                let le_ok = version_le(out[j].1.version.as_str(), pv.as_str());
                proof {
                    assert(le_ok);
                    if sv_le(pv@, out@[j as int].1.version@) {
                        assert(out@[j as int].1.version@ == pv@);
                        assert(false);
                    }
                }
                let matches_pin = range_matches(pv.as_str(), out[j].1.version.as_str());
                proof {
                    if matches_pin {
                        assert(sv_le(pv@, out@[j as int].1.version@));
                        assert(false);
                    }
                    assert(!sv_matches(pv@, out@[j as int].1.version@));
                }
            }
            j = j + 1;
        }
        proof {
            // key-based reading of the audit
            assert forall|kl: Seq<char>| #[trigger] has_key(out@, kl) && value_of(
                out@,
                kl,
            ).name@ == name@ implies ((value_of(out@, kl).version@ == pv@ || !sv_matches(
                pv@,
                value_of(out@, kl).version@,
            )) && (value_of(out@, kl).version@ == pv@ || !sv_le(
                pv@,
                value_of(out@, kl).version@,
            ))) by {
                let m = choose|m: int| 0 <= m < out@.len() && (#[trigger] out@[m]).0@ == kl;
                lemma_value_of_distinct(out@, kl, m);
            }
        }
    }
    proof {
        assert forall|k: Seq<char>| #[trigger] has_key(nodes@, k) && value_of(
            nodes@,
            k,
        ).name@ != name@ implies has_key(out@, k) by {
            let m = choose|m: int| 0 <= m < nodes@.len() && (#[trigger] nodes@[m]).0@ == k;
            lemma_value_of_distinct(nodes@, k, m);
        }
        if !rewrite {
            assert forall|k: Seq<char>| #[trigger] has_key(nodes@, k) implies has_key(
                out@,
                k,
            ) by {
                let m = choose|m: int| 0 <= m < nodes@.len() && (#[trigger] nodes@[m]).0@ == k;
            }
        }
        if rewrite {
            let kp = nodes@[pi as int].0@;
            lemma_node_at(nodes@, pi as int);
            assert(!str_in(removed@, nodes@[pi as int].1.version@));
            assert(has_key(out@, kp));
            assert(satisfied_in(out@, name@, pv@)) by {
                assert(has_key(out@, kp) && value_of(out@, kp).name@ == name@ && value_of(
                    out@,
                    kp,
                ).version@ == pv@ && range_admits(pv@, pv@));
            }
        }
        assert forall|a: Seq<char>, b2: Seq<char>| #[trigger] edge_in(out@, a, b2)
            implies (if rewrite && a == name@ {
            satisfied_in(out@, a, b2)
        } else {
            edge_in(nodes@, a, b2)
        }) by {
            let (k, j): (Seq<char>, int) = choose|k: Seq<char>, j: int|
                #![trigger value_of(out@, k).dependencies@[j]]
                has_key(out@, k) && 0 <= j < value_of(out@, k).dependencies@.len()
                    && value_of(out@, k).dependencies@[j].0@ == a && value_of(
                    out@,
                    k,
                ).dependencies@[j].1@ == b2;
            let e = value_of(out@, k).dependencies@[j];
            assert(deps_rewritten(
                value_of(out@, k).dependencies@,
                value_of(nodes@, k).dependencies@,
                rewrite,
                name@,
                pv@,
            ));
            assert((value_of(nodes@, k).dependencies@[j]).0 == e.0);
            if rewrite && a == name@ {
                assert(b2 == pv@);
            } else {
                assert(value_of(nodes@, k).dependencies@[j].1 == e.1);
                assert(edge_in(nodes@, a, b2));
            }
        }
        // the preferred version is the highest the name resolved to
        if group@.len() > 1 {
            lemma_node_at(nodes@, pi as int);
            assert(highest_of(nodes@, name@, pv@)) by {
                assert(has_key(nodes@, nodes@[pi as int].0@) && value_of(
                    nodes@,
                    nodes@[pi as int].0@,
                ).name@ == name@ && value_of(nodes@, nodes@[pi as int].0@).version@ == pv@);
                assert forall|k: Seq<char>| #[trigger] has_key(nodes@, k) && value_of(
                    nodes@,
                    k,
                ).name@ == name@ implies (value_of(nodes@, k).version@ == pv@ || sv_le(
                    value_of(nodes@, k).version@,
                    pv@,
                )) by {
                    let c2 = choose|c2: int|
                        0 <= c2 < nodes@.len() && (#[trigger] nodes@[c2]).0@ == k;
                    lemma_value_of_distinct(nodes@, k, c2);
                    let m = choose|m: int|
                        0 <= m < group@.len() && (#[trigger] group@[m]) as int == c2;
                    assert(nodes@[group@[m] as int].1.version@ == pv@ || sv_le(
                        nodes@[group@[m] as int].1.version@,
                        pv@,
                    ));
                }
            }
        }
        // the removal rule, as seen from the result
        if rewrite {
            lemma_node_at(nodes@, pi as int);
            assert forall|k: Seq<char>| #[trigger] has_key(nodes@, k) implies (has_key(
                out@,
                k,
            ) <==> !(value_of(nodes@, k).name@ == name@ && value_of(nodes@, k).version@ != pv@
                && collapsible(nodes@, name@, value_of(nodes@, k).version@, pv@))) by {
                let c2 = choose|c2: int|
                    0 <= c2 < nodes@.len() && (#[trigger] nodes@[c2]).0@ == k;
                lemma_value_of_distinct(nodes@, k, c2);
                if !has_key(out@, k) {
                    assert(nodes@[c2].1.name@ == name@ && str_in(
                        removed@,
                        nodes@[c2].1.version@,
                    ));
                    let w = choose|w: int|
                        0 <= w < removed@.len() && (#[trigger] removed@[w])@
                            == nodes@[c2].1.version@;
                    assert(collapsible(nodes@, name@, value_of(nodes@, k).version@, pv@));
                    assert(value_of(nodes@, k).version@ != pv@);
                } else {
                    if value_of(nodes@, k).name@ == name@ && value_of(nodes@, k).version@
                        != pv@ && collapsible(
                        nodes@,
                        name@,
                        value_of(nodes@, k).version@,
                        pv@,
                    ) {
                        let m = choose|m: int|
                            0 <= m < group@.len() && (#[trigger] group@[m]) as int == c2;
                        assert(group@[m] != pi);
                        assert(str_in(removed@, nodes@[c2].1.version@));
                        assert(!has_key(out@, nodes@[c2].0@));
                        assert(false);
                    }
                }
            }
            assert forall|a: Seq<char>, b2: Seq<char>| #[trigger] edge_in(out@, a, b2) && a
                == name@ implies b2 == pv@ by {
                let (k, j): (Seq<char>, int) = choose|k: Seq<char>, j: int|
                    #![trigger value_of(out@, k).dependencies@[j]]
                    has_key(out@, k) && 0 <= j < value_of(out@, k).dependencies@.len()
                        && value_of(out@, k).dependencies@[j].0@ == a && value_of(
                        out@,
                        k,
                    ).dependencies@[j].1@ == b2;
                assert(deps_rewritten(
                    value_of(out@, k).dependencies@,
                    value_of(nodes@, k).dependencies@,
                    rewrite,
                    name@,
                    pv@,
                ));
            }
            assert(highest_of(nodes@, name@, pv@));
        }
        // dependency maps change only at `name`
        assert forall|k: Seq<char>, q: Seq<char>|
            #![trigger has_key(value_of(out@, k).dependencies@, q)]
            has_key(out@, k) implies ((has_key(value_of(out@, k).dependencies@, q) <==>
            has_key(value_of(nodes@, k).dependencies@, q)) && (q != name@ && has_key(
            value_of(nodes@, k).dependencies@,
            q,
        ) ==> value_of(value_of(out@, k).dependencies@, q) == value_of(
            value_of(nodes@, k).dependencies@,
            q,
        ))) by {
            let m = choose|m: int| 0 <= m < nodes@.len() && (#[trigger] nodes@[m]).0@ == k;
            lemma_value_of_distinct(nodes@, k, m);
            lemma_deps_rewritten_kv(
                value_of(out@, k).dependencies@,
                value_of(nodes@, k).dependencies@,
                rewrite,
                name@,
                pv@,
            );
        }
        assert(deps_preserved_except(out@, nodes@, name@));
        // stability of the survivors
        assert forall|kl: Seq<char>, pv2: Seq<char>|
            #![trigger has_key(out@, kl), highest_of(out@, name@, pv2)]
            has_key(out@, kl) && value_of(out@, kl).name@ == name@ && highest_of(
                out@,
                name@,
                pv2,
            ) && value_of(out@, kl).version@ != pv2 && plus_free_name(out@, name@) implies
            !collapsible(out@, name@, value_of(out@, kl).version@, pv2) by {
            let vkl = value_of(out@, kl).version@;
            let kp = choose|kp: Seq<char>|
                #[trigger] has_key(out@, kp) && value_of(out@, kp).name@ == name@ && value_of(
                    out@,
                    kp,
                ).version@ == pv2;
            assert(kl != kp);
            // two survivors of the name map to two group members
            let cl = choose|cl: int| 0 <= cl < nodes@.len() && (#[trigger] nodes@[cl]).0@ == kl;
            let cp = choose|cp: int| 0 <= cp < nodes@.len() && (#[trigger] nodes@[cp]).0@ == kp;
            lemma_value_of_distinct(nodes@, kl, cl);
            lemma_value_of_distinct(nodes@, kp, cp);
            assert(nodes@[cl].1.name@ == name@ && nodes@[cp].1.name@ == name@);
            let ml = choose|ml: int|
                0 <= ml < group@.len() && (#[trigger] group@[ml]) as int == cl;
            let mp = choose|mp: int|
                0 <= mp < group@.len() && (#[trigger] group@[mp]) as int == cp;
            assert(cl != cp);
            assert(ml != mp);
            assert(group@.len() > 1);
            // the preferred version survives and carries no `+`
            lemma_node_at(nodes@, pi as int);
            assert(!str_in(removed@, pv@)) by {
                if str_in(removed@, pv@) {
                    let w = choose|w: int|
                        0 <= w < removed@.len() && (#[trigger] removed@[w])@ == pv@;
                }
            }
            assert(has_key(out@, nodes@[pi as int].0@));
            assert(value_of(out@, nodes@[pi as int].0@).version@ == pv@);
            assert(value_of(out@, nodes@[pi as int].0@).name@ == name@);
            assert(forall|i2: int| 0 <= i2 < pv@.len() ==> pv@[i2] != '+');
            assert(!pv_plus);
            // the audited facts identify pv2 with the preferred version
            assert(pv2 == pv@) by {
                if pv2 != pv@ {
                    assert(value_of(out@, kp).version@ == pv@ || !sv_le(
                        pv@,
                        value_of(out@, kp).version@,
                    ));
                    assert(value_of(out@, nodes@[pi as int].0@).version@ == pv2 || sv_le(
                        value_of(out@, nodes@[pi as int].0@).version@,
                        pv2,
                    ));
                    assert(false);
                }
            }
            if collapsible(out@, name@, vkl, pv2) {
                let wk = choose|wk: Seq<char>|
                    #[trigger] has_key(out@, wk) && has_key(
                        value_of(out@, wk).dependencies@,
                        name@,
                    ) && range_admits(
                        value_of(value_of(out@, wk).dependencies@, name@)@,
                        vkl,
                    ) && range_admits(
                        value_of(value_of(out@, wk).dependencies@, name@)@,
                        pv2,
                    );
                assert(deps_rewritten(
                    value_of(out@, wk).dependencies@,
                    value_of(nodes@, wk).dependencies@,
                    rewrite,
                    name@,
                    pv@,
                ));
                lemma_deps_rewritten_kv(
                    value_of(out@, wk).dependencies@,
                    value_of(nodes@, wk).dependencies@,
                    rewrite,
                    name@,
                    pv@,
                );
                if rewrite {
                    assert(value_of(value_of(out@, wk).dependencies@, name@)@ == pv@);
                    assert(sv_matches(pv@, vkl));
                    assert(vkl == pv@ || !sv_matches(pv@, vkl));
                    assert(false);
                } else {
                    assert(value_of(value_of(nodes@, wk).dependencies@, name@) == value_of(
                        value_of(out@, wk).dependencies@,
                        name@,
                    ));
                    assert(collapsible(nodes@, name@, vkl, pv@));
                    assert(group@[ml] != pi);
                    assert(str_in(removed@, nodes@[cl].1.version@) || !collapsible(
                        nodes@,
                        name@,
                        nodes@[cl].1.version@,
                        pv@,
                    ));
                    assert(removed@.len() == 0);
                    assert(false);
                }
            }
        }
        // package the removal rule behind its witness
        if rewrite {
            assert(highest_of(nodes@, name@, pv@) && (forall|k: Seq<char>|
                #[trigger] has_key(nodes@, k) ==> (has_key(out@, k) <==> !(value_of(
                    nodes@,
                    k,
                ).name@ == name@ && value_of(nodes@, k).version@ != pv@ && collapsible(
                    nodes@,
                    name@,
                    value_of(nodes@, k).version@,
                    pv@,
                )))) && (forall|a: Seq<char>, b2: Seq<char>|
                #[trigger] edge_in(out@, a, b2) && a == name@ ==> b2 == pv@));
        }
    }
    (out, rewrite)
}

/// Positionally equal lists agree key by key.
proof fn lemma_same_nodes_value(
    a: Seq<(String, Package)>,
    b: Seq<(String, Package)>,
    k: Seq<char>,
)
    requires
        same_nodes(a, b),
        has_key(a, k),
    ensures
        has_key(b, k),
        pkg_eqv(value_of(a, k), value_of(b, k)),
    decreases a.len(),
{
    let i = choose|i: int| 0 <= i < a.len() && (#[trigger] a[i]).0@ == k;
    assert(b[i].0@ == k);
    if a[0].0@ == k {
    } else {
        assert(b[0].0@ != k);
        assert forall|m: int| 0 <= m < a.drop_first().len() implies (
        #[trigger] a.drop_first()[m]).0@ == b.drop_first()[m].0@ && pkg_eqv(
            a.drop_first()[m].1,
            b.drop_first()[m].1,
        ) by {
            assert(a.drop_first()[m] == a[m + 1] && b.drop_first()[m] == b[m + 1]);
        }
        assert(i > 0);
        assert(a.drop_first()[i - 1].0@ == k);
        lemma_same_nodes_value(a.drop_first(), b.drop_first(), k);
    }
}

/// Positionally equal lists offer the pass the same collapses.
proof fn lemma_no_collapse_congruent(a: Seq<(String, Package)>, b: Seq<(String, Package)>)
    requires
        same_nodes(a, b),
        no_collapse_possible(b),
    ensures
        no_collapse_possible(a),
{
    assert forall|m: int| 0 <= m < b.len() implies (#[trigger] b[m]).0@ == a[m].0@ && pkg_eqv(
        b[m].1,
        a[m].1,
    ) by {}
    assert forall|kl: Seq<char>, pv: Seq<char>|
        #![trigger has_key(a, kl), highest_of(a, value_of(a, kl).name@, pv)]
        has_key(a, kl) && highest_of(a, value_of(a, kl).name@, pv) && value_of(a, kl).version@
            != pv implies !collapsible(a, value_of(a, kl).name@, value_of(a, kl).version@, pv) by {
        lemma_same_nodes_value(a, b, kl);
        let nm = value_of(a, kl).name@;
        assert(value_of(b, kl).name@ == nm && value_of(b, kl).version@ == value_of(
            a,
            kl,
        ).version@);
        assert(highest_of(b, nm, pv)) by {
            let kw = choose|kw: Seq<char>|
                #[trigger] has_key(a, kw) && value_of(a, kw).name@ == nm && value_of(
                    a,
                    kw,
                ).version@ == pv;
            lemma_same_nodes_value(a, b, kw);
            assert forall|k2: Seq<char>| #[trigger] has_key(b, k2) && value_of(b, k2).name@
                == nm implies (value_of(b, k2).version@ == pv || sv_le(
                value_of(b, k2).version@,
                pv,
            )) by {
                lemma_same_nodes_value(b, a, k2);
            }
        }
        assert(!collapsible(b, nm, value_of(b, kl).version@, pv));
        if collapsible(a, nm, value_of(a, kl).version@, pv) {
            let wk = choose|wk: Seq<char>|
                #[trigger] has_key(a, wk) && has_key(value_of(a, wk).dependencies@, nm)
                    && range_admits(
                    value_of(value_of(a, wk).dependencies@, nm)@,
                    value_of(a, kl).version@,
                ) && range_admits(value_of(value_of(a, wk).dependencies@, nm)@, pv);
            lemma_same_nodes_value(a, b, wk);
            assert(value_of(b, wk).dependencies@ == value_of(a, wk).dependencies@);
            assert(collapsible(b, nm, value_of(b, kl).version@, pv));
            assert(false);
        }
    }
}

impl DependencyResolver {
    /// The post-pass over a resolved tree: per name, when some caller's
    /// range accepts a lower resolved version and the highest one
    /// interchangeably, the lower version is removed and every edge on
    /// that name is rewritten to the highest version.  Surviving nodes
    /// keep their identity; every surviving edge is satisfied among the
    /// survivors or carried over unchanged with all nodes of its name
    /// still present; a name never disappears entirely.
    pub fn deduplicate_tree(&self, tree: &mut DependencyTree)
        requires
            old(tree).wf(),
        ensures
            final(tree).wf(),
            final(tree).root == old(tree).root,
            forall|k: Seq<char>|
                #[trigger] has_key(final(tree).dependencies@, k) ==> has_key(
                    old(tree).dependencies@,
                    k,
                ) && value_of(final(tree).dependencies@, k).name@ == value_of(
                    old(tree).dependencies@,
                    k,
                ).name@ && value_of(final(tree).dependencies@, k).version@ == value_of(
                    old(tree).dependencies@,
                    k,
                ).version@,
            forall|a: Seq<char>, b: Seq<char>|
                #[trigger] edge_in(final(tree).dependencies@, a, b) ==> satisfied_in(
                    final(tree).dependencies@,
                    a,
                    b,
                ) || (edge_in(old(tree).dependencies@, a, b) && name_nodes_preserved(
                    old(tree).dependencies@,
                    final(tree).dependencies@,
                    a,
                )),
            forall|a: Seq<char>|
                #[trigger] name_in(old(tree).dependencies@, a) ==> name_in(
                    final(tree).dependencies@,
                    a,
                ),
            // no name can be compressed further
            forall|nm: Seq<char>| dedup_stable(final(tree).dependencies@, nm),
            // the pass is a fixed point: a tree it cannot compress comes
            // back unchanged, text for text
            no_collapse_possible(old(tree).dependencies@) ==> same_nodes(
                final(tree).dependencies@,
                old(tree).dependencies@,
            ),
            // a node is dropped only when some caller's range accepted
            // its version together with its name's highest one
            forall|k: Seq<char>|
                #[trigger] has_key(old(tree).dependencies@, k) && !has_key(
                    final(tree).dependencies@,
                    k,
                ) ==> (exists|pv2: Seq<char>|
                    #![trigger highest_of(old(tree).dependencies@, value_of(old(tree).dependencies@, k).name@, pv2)]
                    highest_of(
                        old(tree).dependencies@,
                        value_of(old(tree).dependencies@, k).name@,
                        pv2,
                    ) && value_of(old(tree).dependencies@, k).version@ != pv2 && collapsible(
                        old(tree).dependencies@,
                        value_of(old(tree).dependencies@, k).name@,
                        value_of(old(tree).dependencies@, k).version@,
                        pv2,
                    )),
            // when a name lost a node, every surviving edge on it pins a
            // surviving version of the name
            forall|nm: Seq<char>, b: Seq<char>|
                #[trigger] edge_in(final(tree).dependencies@, nm, b) && (exists|k: Seq<char>|
                    #[trigger] has_key(old(tree).dependencies@, k) && value_of(
                        old(tree).dependencies@,
                        k,
                    ).name@ == nm && !has_key(final(tree).dependencies@, k)) ==> (exists|
                    kp: Seq<char>,
                |
                    #[trigger] has_key(final(tree).dependencies@, kp) && value_of(
                        final(tree).dependencies@,
                        kp,
                    ).name@ == nm && value_of(final(tree).dependencies@, kp).version@ == b),
    {
        // the distinct names of the resolved set, in first-appearance
        // order
        let n0 = tree.dependencies.len();
        let mut names: Vec<String> = Vec::new();
        let mut i: usize = 0;
        while i < n0
            invariant
                n0 == tree.dependencies@.len(),
                0 <= i <= n0,
                forall|m1: int, m2: int|
                    0 <= m1 < m2 < names@.len() ==> (#[trigger] names@[m1])@ != (
                    #[trigger] names@[m2])@,
                forall|i2: int|
                    0 <= i2 < i ==> str_in(names@, (#[trigger] tree.dependencies@[i2]).1.name@),
            decreases n0 - i,
        {
            if !str_list_contains(&names, &tree.dependencies[i].1.name) {
                let ghost ns0 = names@;
                names.push(tree.dependencies[i].1.name.clone());
                proof {
                    assert forall|m1: int, m2: int| 0 <= m1 < m2 < names@.len() implies (
                    #[trigger] names@[m1])@ != (#[trigger] names@[m2])@ by {
                        if m2 == names@.len() - 1 {
                            assert(names@[m1] == ns0[m1]);
                            assert(!str_in(ns0, tree.dependencies@[i as int].1.name@));
                        } else {
                            assert(names@[m1] == ns0[m1] && names@[m2] == ns0[m2]);
                        }
                    }
                    assert forall|i2: int| 0 <= i2 < i + 1 implies str_in(
                        names@,
                        (#[trigger] tree.dependencies@[i2]).1.name@,
                    ) by {
                        if i2 < i {
                            let w = choose|w: int|
                                0 <= w < ns0.len() && (#[trigger] ns0[w])@
                                    == tree.dependencies@[i2].1.name@;
                            assert((names@[w])@ == tree.dependencies@[i2].1.name@);
                        } else {
                            assert((names@[names@.len() - 1])@
                                == tree.dependencies@[i2].1.name@);
                        }
                    }
                }
            } else {
                proof {
                    assert forall|i2: int| 0 <= i2 < i + 1 implies str_in(
                        names@,
                        (#[trigger] tree.dependencies@[i2]).1.name@,
                    ) by {}
                }
            }
            i = i + 1;
        }
        let ghost nodes0 = tree.dependencies@;
        proof {
            assert forall|k: Seq<char>| #[trigger] has_key(tree.dependencies@, k) implies
                str_in(names@, value_of(tree.dependencies@, k).name@) by {
                let m = choose|m: int|
                    0 <= m < tree.dependencies@.len() && (#[trigger] tree.dependencies@[m]).0@
                        == k;
                lemma_value_of_distinct(tree.dependencies@, k, m);
            }
        }
        let nn = names.len();
        let mut g: usize = 0;
        while g < nn
            invariant
                nn == names@.len(),
                0 <= g <= nn,
                node_list_wf(tree.dependencies@),
                tree.root == old(tree).root,
                forall|k: Seq<char>|
                    #[trigger] has_key(tree.dependencies@, k) ==> has_key(nodes0, k)
                        && value_of(tree.dependencies@, k).name@ == value_of(nodes0, k).name@
                        && value_of(tree.dependencies@, k).version@ == value_of(
                        nodes0,
                        k,
                    ).version@,
                forall|a: Seq<char>, b: Seq<char>|
                    #[trigger] edge_in(tree.dependencies@, a, b) ==> satisfied_in(
                        tree.dependencies@,
                        a,
                        b,
                    ) || (edge_in(nodes0, a, b) && name_nodes_preserved(
                        nodes0,
                        tree.dependencies@,
                        a,
                    )),
                forall|a: Seq<char>|
                    #[trigger] name_in(nodes0, a) ==> name_in(tree.dependencies@, a),
                forall|m1: int, m2: int|
                    0 <= m1 < m2 < names@.len() ==> (#[trigger] names@[m1])@ != (
                    #[trigger] names@[m2])@,
                forall|k: Seq<char>|
                    #[trigger] has_key(tree.dependencies@, k) ==> str_in(
                        names@,
                        value_of(tree.dependencies@, k).name@,
                    ),
                forall|g2: int|
                    0 <= g2 < g ==> dedup_stable(
                        tree.dependencies@,
                        (#[trigger] names@[g2])@,
                    ),
                no_collapse_possible(nodes0) ==> same_nodes(tree.dependencies@, nodes0),
                // names not yet processed keep all their nodes
                forall|g2: int, k: Seq<char>|
                    g <= g2 < nn && #[trigger] has_key(nodes0, k) && value_of(
                        nodes0,
                        k,
                    ).name@ == (#[trigger] names@[g2])@ ==> has_key(tree.dependencies@, k),
                // edges on names not yet processed keep their text
                forall|g2: int, k: Seq<char>|
                    g <= g2 < nn && #[trigger] has_key(tree.dependencies@, k) ==> ((has_key(
                        value_of(tree.dependencies@, k).dependencies@,
                        (#[trigger] names@[g2])@,
                    ) <==> has_key(value_of(nodes0, k).dependencies@, names@[g2]@)) && (
                    has_key(value_of(nodes0, k).dependencies@, names@[g2]@) ==> value_of(
                        value_of(tree.dependencies@, k).dependencies@,
                        names@[g2]@,
                    ) == value_of(value_of(nodes0, k).dependencies@, names@[g2]@))),
                // every dropped node was collapsible onto its name's highest
                forall|k: Seq<char>|
                    #[trigger] has_key(nodes0, k) && !has_key(tree.dependencies@, k) ==> (
                    exists|pv2: Seq<char>|
                        #![trigger highest_of(nodes0, value_of(nodes0, k).name@, pv2)]
                        highest_of(nodes0, value_of(nodes0, k).name@, pv2) && value_of(
                            nodes0,
                            k,
                        ).version@ != pv2 && collapsible(
                            nodes0,
                            value_of(nodes0, k).name@,
                            value_of(nodes0, k).version@,
                            pv2,
                        )),
                // a processed name that lost a node has its edges pinned
                forall|g2: int, b: Seq<char>|
                    #![trigger names@[g2], edge_in(tree.dependencies@, (names@[g2])@, b)]
                    0 <= g2 < g && (exists|k: Seq<char>|
                        #[trigger] has_key(nodes0, k) && value_of(nodes0, k).name@
                            == (names@[g2])@ && !has_key(tree.dependencies@, k)) && edge_in(
                        tree.dependencies@,
                        (names@[g2])@,
                        b,
                    ) ==> (exists|kp: Seq<char>|
                        #[trigger] has_key(tree.dependencies@, kp) && value_of(
                            tree.dependencies@,
                            kp,
                        ).name@ == (names@[g2])@ && value_of(tree.dependencies@, kp).version@
                            == b),
            decreases nn - g,
        {
            let (new_nodes, changed) = dedup_group(&tree.dependencies, &names[g]);
            let ghost cur = tree.dependencies@;
            let ghost d = names@[g as int]@;
            tree.dependencies = new_nodes;
            proof {
                let new = tree.dependencies@;
                assert forall|a: Seq<char>| #[trigger] name_in(nodes0, a) implies name_in(
                    new,
                    a,
                ) by {
                    assert(name_in(cur, a));
                    let k = choose|k: Seq<char>|
                        #[trigger] has_key(cur, k) && value_of(cur, k).name@ == a;
                    if changed && a == d {
                        assert(name_in(new, d));
                    } else if a != d {
                        assert(value_of(cur, k).name@ != d);
                        assert(has_key(new, k));
                    } else {
                        assert(has_key(new, k));
                    }
                }
                assert forall|a: Seq<char>, b: Seq<char>| #[trigger] edge_in(new, a, b)
                    implies satisfied_in(new, a, b) || (edge_in(nodes0, a, b)
                    && name_nodes_preserved(nodes0, new, a)) by {
                    if changed && a == d {
                        assert(satisfied_in(new, a, b));
                    } else {
                        assert(edge_in(cur, a, b));
                        if satisfied_in(cur, a, b) {
                            let k = choose|k: Seq<char>|
                                #[trigger] has_key(cur, k) && value_of(cur, k).name@ == a
                                    && sv_valid(value_of(cur, k).version@) && range_admits(
                                    b,
                                    value_of(cur, k).version@,
                                );
                            assert(has_key(new, k));
                            assert(satisfied_in(new, a, b));
                        } else {
                            assert(edge_in(nodes0, a, b) && name_nodes_preserved(
                                nodes0,
                                cur,
                                a,
                            ));
                            assert forall|k: Seq<char>| #[trigger] has_key(nodes0, k)
                                && value_of(nodes0, k).name@ == a implies has_key(
                                new,
                                k,
                            ) by {
                                assert(has_key(cur, k));
                                assert(value_of(cur, k).name@ == a);
                            }
                        }
                    }
                }
                // every surviving node's name stays on the list
                assert forall|k: Seq<char>| #[trigger] has_key(new, k) implies str_in(
                    names@,
                    value_of(new, k).name@,
                ) by {
                    assert(has_key(cur, k));
                    assert(value_of(new, k).name@ == value_of(cur, k).name@);
                }
                // names settled so far stay settled
                assert forall|g2: int| 0 <= g2 < g + 1 implies dedup_stable(
                    new,
                    (#[trigger] names@[g2])@,
                ) by {
                    let nm = names@[g2]@;
                    if g2 == g {
                        assert(dedup_stable(new, d));
                    } else {
                        assert(nm != d);
                        assert(dedup_stable(cur, nm));
                        assert forall|kl: Seq<char>, pv2: Seq<char>|
                            #![trigger has_key(new, kl), highest_of(new, nm, pv2)]
                            has_key(new, kl) && value_of(new, kl).name@ == nm && highest_of(
                                new,
                                nm,
                                pv2,
                            ) && value_of(new, kl).version@ != pv2 && plus_free_name(
                                new,
                                nm,
                            ) implies !collapsible(new, nm, value_of(new, kl).version@, pv2) by {
                            assert(has_key(cur, kl) && value_of(cur, kl).name@ == nm
                                && value_of(cur, kl).version@ == value_of(new, kl).version@);
                            assert(highest_of(cur, nm, pv2)) by {
                                let kw = choose|kw: Seq<char>|
                                    #[trigger] has_key(new, kw) && value_of(new, kw).name@ == nm
                                        && value_of(new, kw).version@ == pv2;
                                assert(has_key(cur, kw) && value_of(cur, kw).name@ == nm
                                    && value_of(cur, kw).version@ == pv2);
                                assert forall|k2: Seq<char>| #[trigger] has_key(cur, k2)
                                    && value_of(cur, k2).name@ == nm implies (value_of(
                                    cur,
                                    k2,
                                ).version@ == pv2 || sv_le(value_of(cur, k2).version@, pv2)) by {
                                    assert(value_of(cur, k2).name@ != d);
                                    assert(has_key(new, k2));
                                    assert(value_of(new, k2).name@ == nm && value_of(
                                        new,
                                        k2,
                                    ).version@ == value_of(cur, k2).version@);
                                }
                            }
                            assert(plus_free_name(cur, nm)) by {
                                assert forall|k2: Seq<char>| #[trigger] has_key(cur, k2)
                                    && value_of(cur, k2).name@ == nm implies (forall|i2: int|
                                    0 <= i2 < value_of(cur, k2).version@.len() ==> value_of(
                                        cur,
                                        k2,
                                    ).version@[i2] != '+') by {
                                    assert(value_of(cur, k2).name@ != d);
                                    assert(has_key(new, k2));
                                    assert(value_of(new, k2).name@ == nm && value_of(
                                        new,
                                        k2,
                                    ).version@ == value_of(cur, k2).version@);
                                }
                            }
                            if collapsible(new, nm, value_of(new, kl).version@, pv2) {
                                let wk = choose|wk: Seq<char>|
                                    #[trigger] has_key(new, wk) && has_key(
                                        value_of(new, wk).dependencies@,
                                        nm,
                                    ) && range_admits(
                                        value_of(value_of(new, wk).dependencies@, nm)@,
                                        value_of(new, kl).version@,
                                    ) && range_admits(
                                        value_of(value_of(new, wk).dependencies@, nm)@,
                                        pv2,
                                    );
                                let bv = value_of(value_of(new, wk).dependencies@, nm)@;
                                // the witness edge exists in the previous state
                                let wdeps = value_of(new, wk).dependencies@;
                                let j = choose|j: int|
                                    0 <= j < wdeps.len() && (#[trigger] wdeps[j]).0@ == nm;
                                lemma_value_of_distinct(wdeps, nm, j);
                                assert(wdeps[j].0@ == nm && wdeps[j].1@ == bv);
                                assert(edge_in(new, nm, bv)) by {
                                    assert(has_key(new, wk) && 0 <= j < value_of(
                                        new,
                                        wk,
                                    ).dependencies@.len() && (value_of(
                                        new,
                                        wk,
                                    ).dependencies@[j]).0@ == nm && value_of(
                                        new,
                                        wk,
                                    ).dependencies@[j].1@ == bv);
                                }
                                assert(edge_in(cur, nm, bv));
                                let (k2, j2): (Seq<char>, int) = choose|k2: Seq<char>, j2: int|
                                    #![trigger value_of(cur, k2).dependencies@[j2]]
                                    has_key(cur, k2) && 0 <= j2 < value_of(
                                        cur,
                                        k2,
                                    ).dependencies@.len() && value_of(
                                        cur,
                                        k2,
                                    ).dependencies@[j2].0@ == nm && value_of(
                                        cur,
                                        k2,
                                    ).dependencies@[j2].1@ == bv;
                                let m2 = choose|m2: int|
                                    0 <= m2 < cur.len() && (#[trigger] cur[m2]).0@ == k2;
                                lemma_value_of_distinct(cur, k2, m2);
                                lemma_value_of_distinct(
                                    value_of(cur, k2).dependencies@,
                                    nm,
                                    j2,
                                );
                                assert(has_key(value_of(cur, k2).dependencies@, nm)
                                    && value_of(value_of(cur, k2).dependencies@, nm)@ == bv);
                                assert(collapsible(
                                    cur,
                                    nm,
                                    value_of(cur, kl).version@,
                                    pv2,
                                ));
                                assert(false);
                            }
                        }
                    }
                }
                // edges on later names keep their input text
                assert forall|g2: int, k: Seq<char>|
                    g + 1 <= g2 < nn && #[trigger] has_key(new, k) implies ((has_key(
                        value_of(new, k).dependencies@,
                        (#[trigger] names@[g2])@,
                    ) <==> has_key(value_of(nodes0, k).dependencies@, (names@[g2])@)) && (
                    has_key(value_of(nodes0, k).dependencies@, (names@[g2])@) ==> value_of(
                        value_of(new, k).dependencies@,
                        (names@[g2])@,
                    ) == value_of(value_of(nodes0, k).dependencies@, (names@[g2])@))) by {
                    let nm2 = (names@[g2 as int])@;
                    assert(nm2 != d);
                    assert(has_key(cur, k));
                    assert(deps_preserved_except(new, cur, d));
                    let here = has_key(value_of(new, k).dependencies@, nm2);
                    let there = has_key(value_of(cur, k).dependencies@, nm2);
                    assert(here <==> there);
                }
                // a newly dropped node was collapsible at its group,
                // which still saw the input's view of the name
                assert forall|k: Seq<char>| #[trigger] has_key(nodes0, k) && !has_key(
                    new,
                    k,
                ) implies (exists|pv2: Seq<char>|
                    #![trigger highest_of(nodes0, value_of(nodes0, k).name@, pv2)]
                    highest_of(nodes0, value_of(nodes0, k).name@, pv2) && value_of(
                        nodes0,
                        k,
                    ).version@ != pv2 && collapsible(
                        nodes0,
                        value_of(nodes0, k).name@,
                        value_of(nodes0, k).version@,
                        pv2,
                    )) by {
                    if has_key(cur, k) {
                        assert(changed);
                        let pvd = choose|pvd: Seq<char>|
                            #![trigger highest_of(cur, d, pvd)]
                            highest_of(cur, d, pvd) && (forall|k2: Seq<char>|
                                #[trigger] has_key(cur, k2) ==> (has_key(new, k2) <==> !(
                                value_of(cur, k2).name@ == d && value_of(cur, k2).version@
                                    != pvd && collapsible(
                                    cur,
                                    d,
                                    value_of(cur, k2).version@,
                                    pvd,
                                )))) && (forall|a: Seq<char>, b2: Seq<char>|
                                #[trigger] edge_in(new, a, b2) && a == d ==> b2 == pvd);
                        assert(value_of(cur, k).name@ == d && value_of(cur, k).version@ != pvd
                            && collapsible(cur, d, value_of(cur, k).version@, pvd));
                        assert(value_of(nodes0, k).name@ == d && value_of(nodes0, k).version@
                            == value_of(cur, k).version@);
                        assert(highest_of(nodes0, d, pvd)) by {
                            let kw = choose|kw: Seq<char>|
                                #[trigger] has_key(cur, kw) && value_of(cur, kw).name@ == d
                                    && value_of(cur, kw).version@ == pvd;
                            assert(has_key(nodes0, kw) && value_of(nodes0, kw).name@ == d
                                && value_of(nodes0, kw).version@ == pvd);
                            assert forall|k2: Seq<char>| #[trigger] has_key(nodes0, k2)
                                && value_of(nodes0, k2).name@ == d implies (value_of(
                                nodes0,
                                k2,
                            ).version@ == pvd || sv_le(value_of(nodes0, k2).version@, pvd)) by {
                                assert(has_key(cur, k2));
                                assert(value_of(cur, k2).name@ == d && value_of(
                                    cur,
                                    k2,
                                ).version@ == value_of(nodes0, k2).version@);
                            }
                        }
                        assert(collapsible(
                            nodes0,
                            d,
                            value_of(nodes0, k).version@,
                            pvd,
                        )) by {
                            let wk = choose|wk: Seq<char>|
                                #[trigger] has_key(cur, wk) && has_key(
                                    value_of(cur, wk).dependencies@,
                                    d,
                                ) && range_admits(
                                    value_of(value_of(cur, wk).dependencies@, d)@,
                                    value_of(cur, k).version@,
                                ) && range_admits(
                                    value_of(value_of(cur, wk).dependencies@, d)@,
                                    pvd,
                                );
                            assert(has_key(nodes0, wk));
                            assert(has_key(value_of(nodes0, wk).dependencies@, d) && value_of(
                                value_of(cur, wk).dependencies@,
                                d,
                            ) == value_of(value_of(nodes0, wk).dependencies@, d));
                        }
                    }
                }
                // pinned names stay pinned; the processed name joins them
                assert forall|g2: int, b: Seq<char>|
                    #![trigger names@[g2], edge_in(new, (names@[g2])@, b)]
                    0 <= g2 < g + 1 && (exists|k: Seq<char>|
                        #[trigger] has_key(nodes0, k) && value_of(nodes0, k).name@
                            == (names@[g2])@ && !has_key(new, k)) && edge_in(
                        new,
                        (names@[g2])@,
                        b,
                    ) implies (exists|kp: Seq<char>|
                        #[trigger] has_key(new, kp) && value_of(new, kp).name@
                            == (names@[g2])@ && value_of(new, kp).version@ == b) by {
                    let nm = (names@[g2 as int])@;
                    let kx = choose|kx: Seq<char>|
                        #[trigger] has_key(nodes0, kx) && value_of(nodes0, kx).name@ == nm
                            && !has_key(new, kx);
                    if g2 == g {
                        assert(nm == d);
                        assert(changed) by {
                            if !changed {
                                assert(has_key(cur, kx));
                                assert(has_key(new, kx));
                            }
                        }
                        let pvd = choose|pvd: Seq<char>|
                            #![trigger highest_of(cur, d, pvd)]
                            highest_of(cur, d, pvd) && (forall|k2: Seq<char>|
                                #[trigger] has_key(cur, k2) ==> (has_key(new, k2) <==> !(
                                value_of(cur, k2).name@ == d && value_of(cur, k2).version@
                                    != pvd && collapsible(
                                    cur,
                                    d,
                                    value_of(cur, k2).version@,
                                    pvd,
                                )))) && (forall|a: Seq<char>, b2: Seq<char>|
                                #[trigger] edge_in(new, a, b2) && a == d ==> b2 == pvd);
                        assert(b == pvd);
                        let kw = choose|kw: Seq<char>|
                            #[trigger] has_key(cur, kw) && value_of(cur, kw).name@ == d
                                && value_of(cur, kw).version@ == pvd;
                        assert(has_key(new, kw));
                        assert(value_of(new, kw).name@ == d && value_of(new, kw).version@
                            == pvd);
                    } else {
                        assert(nm != d);
                        // the loss is not new, and the edge was carried
                        assert(!has_key(cur, kx)) by {
                            if has_key(cur, kx) {
                                assert(value_of(cur, kx).name@ == nm);
                                assert(has_key(new, kx));
                            }
                        }
                        assert(edge_in(cur, nm, b));
                        let kp = choose|kp: Seq<char>|
                            #[trigger] has_key(cur, kp) && value_of(cur, kp).name@ == nm
                                && value_of(cur, kp).version@ == b;
                        assert(has_key(new, kp));
                        assert(value_of(new, kp).name@ == nm && value_of(new, kp).version@
                            == b);
                    }
                }
                // a tree with nothing to collapse passes through unchanged
                if no_collapse_possible(nodes0) {
                    assert(same_nodes(cur, nodes0));
                    lemma_no_collapse_congruent(cur, nodes0);
                    assert(!changed);
                    assert(same_nodes(new, cur));
                    assert(same_nodes(new, nodes0)) by {
                        assert forall|m: int| 0 <= m < new.len() implies (
                        #[trigger] new[m]).0@ == nodes0[m].0@ && pkg_eqv(
                            new[m].1,
                            nodes0[m].1,
                        ) by {}
                    }
                }
            }
            g = g + 1;
        }
        proof {
            // no name — present or not — can be compressed further
            assert forall|nm: Seq<char>| dedup_stable(tree.dependencies@, nm) by {
                assert forall|kl: Seq<char>, pv2: Seq<char>|
                    #![trigger has_key(tree.dependencies@, kl), highest_of(tree.dependencies@, nm, pv2)]
                    has_key(tree.dependencies@, kl) && value_of(tree.dependencies@, kl).name@
                        == nm && highest_of(tree.dependencies@, nm, pv2) && value_of(
                        tree.dependencies@,
                        kl,
                    ).version@ != pv2 && plus_free_name(tree.dependencies@, nm) implies
                    !collapsible(
                    tree.dependencies@,
                    nm,
                    value_of(tree.dependencies@, kl).version@,
                    pv2,
                ) by {
                    assert(str_in(names@, nm));
                    let g2 = choose|g2: int|
                        0 <= g2 < names@.len() && (#[trigger] names@[g2])@ == nm;
                    assert(dedup_stable(tree.dependencies@, names@[g2]@));
                }
            }
        }
    }

    /// Resolves the root's requests transitively against the snapshot
    /// and compresses the result (the post-pass deduplication).  Returns
    /// the resolved graph and the requests whose names the snapshot does
    /// not know yet; the caller fetches those records, grows the
    /// snapshot, and resolves again until none are pending.
    ///
    /// The closure invariant: every dependency edge of the returned
    /// graph is settled — satisfied by a node of the graph, reported
    /// back as pending, or known unresolvable and dropped (the lenient
    /// policy).  The root's own requests are settled likewise, except
    /// that the post-pass may have replaced the chosen version by the
    /// preferred one of that name.
    pub fn resolve_dependencies(&mut self, root: &Package, registry: &RegistrySnapshot) -> (r: (
        DependencyTree,
        Vec<(String, String)>,
    ))
        requires
            old(self).wf(),
            registry.wf(),
        ensures
            final(self).wf(),
            r.0.wf(),
            r.0.root@ == root@,
            forall|k: Seq<char>|
                #[trigger] has_key(r.0.dependencies@, k) ==> version_in_record(
                    *registry,
                    value_of(r.0.dependencies@, k).name@,
                    value_of(r.0.dependencies@, k).version@,
                ),
            // the post-pass left nothing to compress
            forall|nm: Seq<char>| dedup_stable(r.0.dependencies@, nm),
            forall|a: Seq<char>, b: Seq<char>|
                #[trigger] edge_in(r.0.dependencies@, a, b) ==> request_settled(
                    r.0.dependencies@,
                    r.1@,
                    *registry,
                    a,
                    b,
                ),
            forall|j: int|
                0 <= j < root.dependencies@.len() ==> request_settled(
                    r.0.dependencies@,
                    r.1@,
                    *registry,
                    (#[trigger] root.dependencies@[j]).0@,
                    root.dependencies@[j].1@,
                ) || name_in(r.0.dependencies@, root.dependencies@[j].0@),
            forall|j: int|
                0 <= j < root.dev_dependencies@.len() ==> request_settled(
                    r.0.dependencies@,
                    r.1@,
                    *registry,
                    (#[trigger] root.dev_dependencies@[j]).0@,
                    root.dev_dependencies@[j].1@,
                ) || name_in(r.0.dependencies@, root.dev_dependencies@[j].0@),
            forall|m: int| 0 <= m < r.1@.len() ==> !registry.spec_known((#[trigger] r.1@[m]).0@),
    {
        let (mut tree, pending) = self.resolve_dependencies_internal(root, registry);
        let ghost nodes0 = tree.dependencies@;
        self.deduplicate_tree(&mut tree);
        proof {
            let new = tree.dependencies@;
            assert forall|k: Seq<char>| #[trigger] has_key(new, k) implies version_in_record(
                *registry,
                value_of(new, k).name@,
                value_of(new, k).version@,
            ) by {
                assert(has_key(nodes0, k));
                assert(pkg_matches_record(*registry, value_of(nodes0, k)));
            }
            assert forall|a: Seq<char>, b: Seq<char>| request_settled(
                nodes0,
                pending@,
                *registry,
                a,
                b,
            ) && name_nodes_preserved(nodes0, new, a) implies request_settled(
                new,
                pending@,
                *registry,
                a,
                b,
            ) by {
                if satisfied_in(nodes0, a, b) {
                    let k = choose|k: Seq<char>|
                        #[trigger] has_key(nodes0, k) && value_of(nodes0, k).name@ == a
                            && sv_valid(value_of(nodes0, k).version@) && range_admits(
                            b,
                            value_of(nodes0, k).version@,
                        );
                    assert(has_key(new, k));
                    assert(satisfied_in(new, a, b));
                }
            }
            assert forall|a: Seq<char>, b: Seq<char>| #[trigger] edge_in(new, a, b) implies
                request_settled(new, pending@, *registry, a, b) by {
                if !satisfied_in(new, a, b) {
                    assert(edge_in(nodes0, a, b) && name_nodes_preserved(nodes0, new, a));
                    assert(request_settled(nodes0, pending@, *registry, a, b));
                }
            }
            assert forall|j: int| 0 <= j < root.dependencies@.len() implies request_settled(
                new,
                pending@,
                *registry,
                (#[trigger] root.dependencies@[j]).0@,
                root.dependencies@[j].1@,
            ) || name_in(new, root.dependencies@[j].0@) by {
                let a = root.dependencies@[j].0@;
                let b = root.dependencies@[j].1@;
                if satisfied_in(nodes0, a, b) {
                    assert(name_in(nodes0, a));
                    assert(name_in(new, a));
                }
            }
            assert forall|j: int| 0 <= j < root.dev_dependencies@.len() implies
                request_settled(
                new,
                pending@,
                *registry,
                (#[trigger] root.dev_dependencies@[j]).0@,
                root.dev_dependencies@[j].1@,
            ) || name_in(new, root.dev_dependencies@[j].0@) by {
                let a = root.dev_dependencies@[j].0@;
                let b = root.dev_dependencies@[j].1@;
                if satisfied_in(nodes0, a, b) {
                    assert(name_in(nodes0, a));
                    assert(name_in(new, a));
                }
            }
        }
        (tree, pending)
    }
}

/// Appending to a request list adds exactly that request.
proof fn lemma_req_in_push(s: Seq<(String, String)>, x: (String, String), n: Seq<char>, r: Seq<
    char,
>)
    ensures
        req_in(s.push(x), n, r) <==> (req_in(s, n, r) || (x.0@ == n && x.1@ == r)),
{
    if req_in(s.push(x), n, r) {
        let i = choose|i: int|
            0 <= i < s.push(x).len() && (#[trigger] s.push(x)[i]).0@ == n && s.push(x)[i].1@
                == r;
        if i < s.len() {
            assert(s[i].0@ == n && s[i].1@ == r);
        }
    }
    if req_in(s, n, r) {
        let i = choose|i: int|
            0 <= i < s.len() && (#[trigger] s[i]).0@ == n && s[i].1@ == r;
        assert(s.push(x)[i].0@ == n && s.push(x)[i].1@ == r);
    }
    if x.0@ == n && x.1@ == r {
        assert(s.push(x)[s.len() as int].0@ == n && s.push(x)[s.len() as int].1@ == r);
    }
}

/// Marks each request of `list` visited and enqueues those seen for the
/// first time.
fn seed_requests(
    visited: &mut Vec<(String, String)>,
    q: &mut crossbeam::queue::SegQueue<(String, String)>,
    list: &Vec<(String, String)>,
)
    ensures
        forall|n: Seq<char>, r: Seq<char>|
            #[trigger] req_in(old(visited)@, n, r) ==> req_in(final(visited)@, n, r),
        forall|n: Seq<char>, r: Seq<char>|
            #[trigger] req_in(final(visited)@, n, r) ==> req_in(old(visited)@, n, r) || req_in(
                queue_items(*final(q)),
                n,
                r,
            ),
        forall|j: int|
            0 <= j < list@.len() ==> req_in(
                final(visited)@,
                (#[trigger] list@[j]).0@,
                list@[j].1@,
            ),
        forall|n: Seq<char>, r: Seq<char>|
            #[trigger] req_in(queue_items(*old(q)), n, r) ==> req_in(
                queue_items(*final(q)),
                n,
                r,
            ),
        forall|n: Seq<char>, r: Seq<char>|
            #[trigger] req_in(queue_items(*final(q)), n, r) ==> req_in(final(visited)@, n, r)
                || req_in(queue_items(*old(q)), n, r),
{
    let n = list.len();
    let mut j: usize = 0;
    while j < n
        invariant
            n == list@.len(),
            0 <= j <= n,
            forall|n2: Seq<char>, r: Seq<char>|
                #[trigger] req_in(old(visited)@, n2, r) ==> req_in(visited@, n2, r),
            forall|n2: Seq<char>, r: Seq<char>|
                #[trigger] req_in(visited@, n2, r) ==> req_in(old(visited)@, n2, r) || req_in(
                    queue_items(*q),
                    n2,
                    r,
                ),
            forall|m: int|
                0 <= m < j ==> req_in(visited@, (#[trigger] list@[m]).0@, list@[m].1@),
            forall|n2: Seq<char>, r: Seq<char>|
                #[trigger] req_in(queue_items(*old(q)), n2, r) ==> req_in(
                    queue_items(*q),
                    n2,
                    r,
                ),
            forall|n2: Seq<char>, r: Seq<char>|
                #[trigger] req_in(queue_items(*q), n2, r) ==> req_in(visited@, n2, r) || req_in(
                    queue_items(*old(q)),
                    n2,
                    r,
                ),
        decreases n - j,
    {
        let name = list[j].0.clone();
        let range = list[j].1.clone();
        if !req_list_contains(visited, &name, &range) {
            let ghost v0 = visited@;
            let ghost q0 = queue_items(*q);
            visited.push((name.clone(), range.clone()));
            queue_push(q, name, range);
            proof {
                let x = (list@[j as int].0, list@[j as int].1);
                assert(visited@ == v0.push(x));
                assert(queue_items(*q) == q0.push(x));
                assert forall|n2: Seq<char>, r: Seq<char>| #[trigger] req_in(visited@, n2, r)
                    implies (req_in(v0, n2, r) || (n2 == x.0@ && r == x.1@)) by {
                    lemma_req_in_push(v0, x, n2, r);
                }
                assert forall|n2: Seq<char>, r: Seq<char>| #[trigger] req_in(v0, n2, r)
                    implies req_in(visited@, n2, r) by {
                    lemma_req_in_push(v0, x, n2, r);
                }
                assert forall|n2: Seq<char>, r: Seq<char>| #[trigger] req_in(
                    queue_items(*q),
                    n2,
                    r,
                ) implies (req_in(q0, n2, r) || (n2 == x.0@ && r == x.1@)) by {
                    lemma_req_in_push(q0, x, n2, r);
                }
                assert forall|n2: Seq<char>, r: Seq<char>| #[trigger] req_in(q0, n2, r)
                    implies req_in(queue_items(*q), n2, r) by {
                    lemma_req_in_push(q0, x, n2, r);
                }
                assert(req_in(visited@, x.0@, x.1@)) by {
                    lemma_req_in_push(v0, x, x.0@, x.1@);
                }
                assert(req_in(queue_items(*q), x.0@, x.1@)) by {
                    lemma_req_in_push(q0, x, x.0@, x.1@);
                }
            }
        } else {
            proof {
                assert(req_in(visited@, list@[j as int].0@, list@[j as int].1@));
            }
        }
        j = j + 1;
    }
}

} // verus!
