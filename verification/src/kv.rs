//! Association lists keyed by strings.
//!
//! The manager's maps (dependency maps, registry records, caches, the
//! lockfile's package map) are vectors of `(String, V)` pairs with
//! pairwise-distinct keys, read in specifications through `has_key` and
//! `value_of`.

use vstd::prelude::*;

verus! {

/// No two entries share a key.
pub open spec fn distinct_keys<V>(s: Seq<(String, V)>) -> bool {
    forall|i: int, j: int|
        0 <= i < j < s.len() ==> (#[trigger] s[i]).0@ != (#[trigger] s[j]).0@
}

/// Some entry carries the key `k`.
pub open spec fn has_key<V>(s: Seq<(String, V)>, k: Seq<char>) -> bool {
    exists|i: int| 0 <= i < s.len() && (#[trigger] s[i]).0@ == k
}

/// The value of the first entry carrying `k`.
pub open spec fn value_of<V>(s: Seq<(String, V)>, k: Seq<char>) -> V
    decreases s.len(),
{
    if s.len() == 0 {
        arbitrary()
    } else if s[0].0@ == k {
        s[0].1
    } else {
        value_of(s.drop_first(), k)
    }
}

/// `value_of` returns the entry at the first index whose key is `k`.
pub proof fn lemma_value_of_first<V>(s: Seq<(String, V)>, k: Seq<char>, i: int)
    requires
        0 <= i < s.len(),
        s[i].0@ == k,
        forall|m: int| 0 <= m < i ==> (#[trigger] s[m]).0@ != k,
    ensures
        has_key(s, k),
        value_of(s, k) == s[i].1,
    decreases i,
{
    if i > 0 {
        lemma_value_of_first(s.drop_first(), k, i - 1);
    }
}

/// With distinct keys, any entry carrying `k` determines `value_of`.
pub proof fn lemma_value_of_distinct<V>(s: Seq<(String, V)>, k: Seq<char>, i: int)
    requires
        distinct_keys(s),
        0 <= i < s.len(),
        s[i].0@ == k,
    ensures
        has_key(s, k),
        value_of(s, k) == s[i].1,
{
    assert forall|m: int| 0 <= m < i implies (#[trigger] s[m]).0@ != k by {
        assert(s[m].0@ != s[i].0@);
    }
    lemma_value_of_first(s, k, i);
}

/// The index of the first entry carrying `k`, if any.
pub fn kv_find<V>(s: &Vec<(String, V)>, k: &String) -> (r: Option<usize>)
    ensures
        match r {
            Some(i) => i < s@.len() && s@[i as int].0@ == k@ && (forall|m: int|
                0 <= m < i ==> (#[trigger] s@[m]).0@ != k@),
            None => !has_key(s@, k@),
        },
{
    let n = s.len();
    let mut i: usize = 0;
    while i < n
        invariant
            n == s@.len(),
            0 <= i <= n,
            forall|m: int| 0 <= m < i ==> (#[trigger] s@[m]).0@ != k@,
        decreases n - i,
    {
        if s[i].0 == *k {
            return Some(i);
        }
        i = i + 1;
    }
    None
}

/// Whether the list carries the key `k`.
pub fn kv_contains<V>(s: &Vec<(String, V)>, k: &String) -> (r: bool)
    ensures
        r == has_key(s@, k@),
{
    match kv_find(s, k) {
        Some(i) => {
            proof {
                lemma_value_of_first(s@, k@, i as int);
            }
            true
        },
        None => false,
    }
}

/// The value stored under `k`, if any.
pub fn kv_get<'a, V>(s: &'a Vec<(String, V)>, k: &String) -> (r: Option<&'a V>)
    ensures
        match r {
            Some(v) => has_key(s@, k@) && *v == value_of(s@, k@),
            None => !has_key(s@, k@),
        },
{
    match kv_find(s, k) {
        Some(i) => {
            proof {
                lemma_value_of_first(s@, k@, i as int);
            }
            Some(&s[i].1)
        },
        None => None,
    }
}

/// Stores `val` under `k`, replacing the entry if the key is present.
pub fn kv_set<V>(s: &mut Vec<(String, V)>, k: String, val: V)
    requires
        distinct_keys(old(s)@),
    ensures
        distinct_keys(final(s)@),
        forall|q: Seq<char>| #[trigger] has_key(final(s)@, q) <==> (q == k@ || has_key(
            old(s)@,
            q,
        )),
        value_of(final(s)@, k@) == val,
        forall|q: Seq<char>|
            q != k@ && #[trigger] has_key(old(s)@, q) ==> value_of(final(s)@, q) == value_of(
                old(s)@,
                q,
            ),
        final(s)@.len() <= old(s)@.len() + 1,
        !has_key(old(s)@, k@) ==> final(s)@ == old(s)@.push((k, val)),
{
    let ghost k_view = k@;
    match kv_find(s, &k) {
        Some(i) => {
            s[i] = (k, val);
            proof {
                assert forall|m: int| 0 <= m < s@.len() implies (#[trigger] s@[m]).0@
                    == old(s)@[m].0@ by {}
                assert forall|a: int, b: int| 0 <= a < b < s@.len() implies (
                #[trigger] s@[a]).0@ != (#[trigger] s@[b]).0@ by {
                    assert(s@[a].0@ == old(s)@[a].0@);
                    assert(s@[b].0@ == old(s)@[b].0@);
                }
                assert forall|q: Seq<char>| #[trigger] has_key(s@, q) implies (q == k_view
                    || has_key(old(s)@, q)) by {
                    let m = choose|m: int| 0 <= m < s@.len() && (#[trigger] s@[m]).0@ == q;
                    assert(old(s)@[m].0@ == q);
                }
                assert forall|q: Seq<char>| q == k_view || has_key(old(s)@, q) implies
                    #[trigger] has_key(s@, q) by {
                    if q == k_view {
                        assert(s@[i as int].0@ == q);
                    } else {
                        let m = choose|m: int|
                            0 <= m < old(s)@.len() && (#[trigger] old(s)@[m]).0@ == q;
                        assert(s@[m].0@ == q);
                    }
                }
                lemma_value_of_distinct(s@, k_view, i as int);
                assert forall|q: Seq<char>| q != k_view && #[trigger] has_key(old(s)@, q)
                    implies value_of(s@, q) == value_of(old(s)@, q) by {
                    let m = choose|m: int|
                        0 <= m < old(s)@.len() && (#[trigger] old(s)@[m]).0@ == q;
                    assert(m != i);
                    lemma_value_of_distinct(old(s)@, q, m);
                    lemma_value_of_distinct(s@, q, m);
                }
            }
        },
        None => {
            s.push((k, val));
            proof {
                assert forall|a: int, b: int| 0 <= a < b < s@.len() implies (
                #[trigger] s@[a]).0@ != (#[trigger] s@[b]).0@ by {
                    if b < s@.len() - 1 {
                        assert(s@[a] == old(s)@[a]);
                        assert(s@[b] == old(s)@[b]);
                    } else {
                        assert(s@[a] == old(s)@[a]);
                        assert(!has_key(old(s)@, k_view));
                        assert(s@[a].0@ != k_view);
                    }
                }
                assert forall|q: Seq<char>| #[trigger] has_key(s@, q) implies (q == k_view
                    || has_key(old(s)@, q)) by {
                    let m = choose|m: int| 0 <= m < s@.len() && (#[trigger] s@[m]).0@ == q;
                    if m < s@.len() - 1 {
                        assert(old(s)@[m].0@ == q);
                    }
                }
                assert forall|q: Seq<char>| q == k_view || has_key(old(s)@, q) implies
                    #[trigger] has_key(s@, q) by {
                    if q == k_view {
                        assert(s@[s@.len() - 1].0@ == q);
                    } else {
                        let m = choose|m: int|
                            0 <= m < old(s)@.len() && (#[trigger] old(s)@[m]).0@ == q;
                        assert(s@[m].0@ == q);
                    }
                }
                lemma_value_of_distinct(s@, k_view, s@.len() - 1);
                assert forall|q: Seq<char>| q != k_view && #[trigger] has_key(old(s)@, q)
                    implies value_of(s@, q) == value_of(old(s)@, q) by {
                    let m = choose|m: int|
                        0 <= m < old(s)@.len() && (#[trigger] old(s)@[m]).0@ == q;
                    lemma_value_of_distinct(old(s)@, q, m);
                    assert(s@[m].0@ == q);
                    lemma_value_of_distinct(s@, q, m);
                }
            }
        },
    }
}

} // verus!
