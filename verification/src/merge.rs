//! The merge of two ordered runs of keys, as a walk over a range of keys makes it.
//!
//! One run is that of the store, the other that of a transaction's updates. A walk visits
//! the keys of both in one direction, meets a key that is in both runs once, and reports
//! the keys of a given domain until it has reported as many as were asked for.

use crate::order;
use vstd::prelude::*;

verus! {

/// The direction in which a walk visits the keys.
#[derive(Clone, Copy, Debug, PartialEq, Eq, Structural)]
pub enum Direction {
    /// From the first key to the last
    Forward,
    /// From the last key to the first
    Reverse,
}

/// A walk in direction `dir` visits `a` before it visits `b`.
pub open spec fn sooner<K: Ord>(dir: Direction, a: K, b: K) -> bool {
    match dir {
        Direction::Forward => order::before(a, b),
        Direction::Reverse => order::before(b, a),
    }
}

/// A walk in direction `dir` visits the keys of `s` one after the other.
pub open spec fn ordered<K: Ord>(dir: Direction, s: Seq<K>) -> bool {
    forall|i: int, j: int| #![trigger s[i], s[j]] 0 <= i < j < s.len() ==> sooner(dir, s[i], s[j])
}

/// The keys of `s` at the positions from `lo` to `hi`, as a walk visits them.
pub open spec fn run<K>(dir: Direction, s: Seq<K>, lo: int, hi: int) -> Seq<K> {
    match dir {
        Direction::Forward => s.subrange(lo, hi),
        Direction::Reverse => s.subrange(lo, hi).reverse(),
    }
}

/// The position of the `n`th key that a walk from `lo` to `hi` visits.
pub fn position(dir: Direction, lo: usize, hi: usize, n: usize) -> (pos: usize)
    requires
        lo <= hi,
        n < hi - lo,
    ensures
        pos == match dir {
            Direction::Forward => lo + n,
            Direction::Reverse => hi - 1 - n,
        },
{
    match dir {
        Direction::Forward => lo + n,
        Direction::Reverse => hi - 1 - n,
    }
}

/// Whether a walk visits `a` before it visits `b`.
pub fn comes_sooner<K: Ord + Clone>(dir: Direction, a: &K, b: &K) -> (r: bool)
    requires
        order::key_laws::<K>(),
    ensures
        r == sooner(dir, *a, *b),
{
    match dir {
        Direction::Forward => order::precedes(a, b),
        Direction::Reverse => order::precedes(b, a),
    }
}

/// `count` is as many as `limit` asks for.
pub open spec fn full(count: nat, limit: Option<usize>) -> bool {
    match limit {
        Some(l) => count == l,
        None => false,
    }
}

/// `count` is no more than `limit` asks for.
pub open spec fn within(count: nat, limit: Option<usize>) -> bool {
    match limit {
        Some(l) => count <= l,
        None => true,
    }
}

/// `keys` are the keys of `domain` in the order of a walk: all of them, or the first `limit`.
pub open spec fn lists<K: Ord>(dir: Direction, keys: Seq<K>, domain: Set<K>, limit: Option<usize>) -> bool {
    &&& ordered(dir, keys)
    &&& within(keys.len(), limit)
    &&& forall|i: int| 0 <= i < keys.len() ==> domain.contains(#[trigger] keys[i])
    &&& forall|k: K| #[trigger]
        domain.contains(k) ==> keys.contains(k) || (full(keys.len(), limit) && all_sooner(dir, keys, k))
}

/// A walk visits every key of `keys` before it visits `k`.
pub open spec fn all_sooner<K: Ord>(dir: Direction, keys: Seq<K>, k: K) -> bool {
    forall|i: int| 0 <= i < keys.len() ==> sooner(dir, #[trigger] keys[i], k)
}

/// `k` stands in `s` at position `from` or later.
pub open spec fn ahead<K>(s: Seq<K>, from: int, k: K) -> bool {
    exists|x: int| from <= x < s.len() && #[trigger] s[x] == k
}

/// Where a merge of the runs `t` and `u` stands after `i` keys of `t` and `j` keys of `u`:
/// `hits` are the keys of `domain` among those, and everything visited comes before
/// everything ahead.
pub open spec fn merging<K: Ord>(
    dir: Direction,
    t: Seq<K>,
    u: Seq<K>,
    i: int,
    j: int,
    hits: Seq<K>,
    domain: Set<K>,
) -> bool {
    &&& 0 <= i <= t.len()
    &&& 0 <= j <= u.len()
    &&& ordered(dir, t)
    &&& ordered(dir, u)
    &&& ordered(dir, hits)
    &&& forall|x: int, y: int| #![trigger t[x], u[y]] 0 <= x < i && j <= y < u.len() ==> sooner(dir, t[x], u[y])
    &&& forall|x: int, y: int| #![trigger t[x], u[y]] i <= x < t.len() && 0 <= y < j ==> sooner(dir, u[y], t[x])
    &&& forall|h: int| 0 <= h < hits.len() ==> domain.contains(#[trigger] hits[h])
    &&& forall|x: int| i <= x < t.len() ==> all_sooner(dir, hits, #[trigger] t[x])
    &&& forall|y: int| j <= y < u.len() ==> all_sooner(dir, hits, #[trigger] u[y])
    &&& forall|k: K| #[trigger] domain.contains(k) ==> hits.contains(k) || ahead(t, i, k) || ahead(u, j, k)
}

/// The keys that have been reported once `k` has been visited.
pub open spec fn reported<K>(hits: Seq<K>, domain: Set<K>, k: K) -> Seq<K> {
    if domain.contains(k) {
        hits.push(k)
    } else {
        hits
    }
}

proof fn lemma_reported<K: Ord>(hits: Seq<K>, domain: Set<K>, k: K)
    ensures
        forall|x: K| #[trigger] hits.contains(x) ==> reported(hits, domain, k).contains(x),
        domain.contains(k) ==> reported(hits, domain, k).contains(k),
{
    let after = reported(hits, domain, k);
    assert forall|x: K| #[trigger] hits.contains(x) implies after.contains(x) by {
        let h = hits.index_of(x);
        assert(after[h] == x);
    }
    if domain.contains(k) {
        assert(after[hits.len() as int] == k);
    }
}

/// The next key is that of `t`.
pub proof fn lemma_take_left<K: Ord + Clone>(
    dir: Direction,
    t: Seq<K>,
    u: Seq<K>,
    i: int,
    j: int,
    hits: Seq<K>,
    domain: Set<K>,
)
    requires
        order::key_laws::<K>(),
        merging(dir, t, u, i, j, hits, domain),
        i < t.len(),
        j < u.len() ==> sooner(dir, t[i], u[j]),
    ensures
        !u.contains(t[i]),
        merging(dir, t, u, i + 1, j, reported(hits, domain, t[i]), domain),
{
    order::lemma_before_is_total_order::<K>();
    let k = t[i];
    let after = reported(hits, domain, k);
    lemma_reported(hits, domain, k);
    assert forall|y: int| j <= y < u.len() implies sooner(dir, k, #[trigger] u[y]) by {
        if y > j {
            assert(sooner(dir, u[j], u[y]));
        }
    }
    assert(all_sooner(dir, hits, k));
    assert forall|x: K| #[trigger] domain.contains(x) implies after.contains(x) || ahead(t, i + 1, x) || ahead(
        u,
        j,
        x,
    ) by {
        if !hits.contains(x) && !ahead(u, j, x) && x != k {
            let p = choose|p: int| i <= p < t.len() && #[trigger] t[p] == x;
            assert(i + 1 <= p);
        }
    }
}

/// The next key is that of `u`, which may be that of `t` as well.
pub proof fn lemma_take_right<K: Ord + Clone>(
    dir: Direction,
    t: Seq<K>,
    u: Seq<K>,
    i: int,
    j: int,
    hits: Seq<K>,
    domain: Set<K>,
)
    requires
        order::key_laws::<K>(),
        merging(dir, t, u, i, j, hits, domain),
        j < u.len(),
        i < t.len() ==> !sooner(dir, t[i], u[j]),
    ensures
        merging(
            dir,
            t,
            u,
            if i < t.len() && t[i] == u[j] { i + 1 } else { i },
            j + 1,
            reported(hits, domain, u[j]),
            domain,
        ),
{
    order::lemma_before_is_total_order::<K>();
    let k = u[j];
    let i2 = if i < t.len() && t[i] == u[j] { i + 1 } else { i };
    let after = reported(hits, domain, k);
    lemma_reported(hits, domain, k);
    assert forall|x: int| i2 <= x < t.len() implies sooner(dir, k, #[trigger] t[x]) by {
        if x > i {
            assert(sooner(dir, t[i], t[x]));
        }
    }
    assert(all_sooner(dir, hits, k));
    assert forall|x: K| #[trigger] domain.contains(x) implies after.contains(x) || ahead(t, i2, x) || ahead(
        u,
        j + 1,
        x,
    ) by {
        if !hits.contains(x) && x != k {
            if ahead(t, i, x) {
                let p = choose|p: int| i <= p < t.len() && #[trigger] t[p] == x;
                assert(i2 <= p);
            } else {
                let p = choose|p: int| j <= p < u.len() && #[trigger] u[p] == x;
                assert(j + 1 <= p);
            }
        }
    }
}

/// A merge that has come to the end of both runs, or has reported enough, is done.
pub proof fn lemma_merged<K: Ord + Clone>(
    dir: Direction,
    t: Seq<K>,
    u: Seq<K>,
    i: int,
    j: int,
    hits: Seq<K>,
    domain: Set<K>,
    limit: Option<usize>,
)
    requires
        merging(dir, t, u, i, j, hits, domain),
        within(hits.len(), limit),
        full(hits.len(), limit) || (i == t.len() && j == u.len()),
    ensures
        lists(dir, hits, domain, limit),
{
}

} // verus!
