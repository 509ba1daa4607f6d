//! The mathematical model of a vector clock.
//!
//! A clock is a map from hosts to tick counts. A host without an entry has
//! count zero, and every function here reads a map through [`count`], so that
//! an absent host and a host at zero are never told apart.

use vstd::prelude::*;
use crate::clock::TemporalRelation;

verus! {

/// The number of ticks that `m` records for `host`.
pub open spec fn count<H>(m: Map<H, u64>, host: H) -> u64 {
    if m.contains_key(host) {
        m[host]
    } else {
        0
    }
}

/// No entry of `m` holds a zero: each host with an entry has ticked.
pub open spec fn sparse<H>(m: Map<H, u64>) -> bool {
    forall|h: H| m.contains_key(h) ==> m[h] >= 1
}

/// `a` and `b` record the same count for every host.
pub open spec fn same_counts<H>(a: Map<H, u64>, b: Map<H, u64>) -> bool {
    forall|h: H| count(a, h) == count(b, h)
}

/// `a` records for no host more ticks than `b` does.
pub open spec fn precedes<H>(a: Map<H, u64>, b: Map<H, u64>) -> bool {
    forall|h: H| count(a, h) <= count(b, h)
}

/// `a` happened before `b`: it is ahead on no host, and behind on at least
/// one.
pub open spec fn strictly_precedes<H>(a: Map<H, u64>, b: Map<H, u64>) -> bool {
    precedes(a, b) && exists|h: H| count(a, h) < count(b, h)
}

/// How `a` stands to `b` in the causal order.
pub open spec fn relation<H>(a: Map<H, u64>, b: Map<H, u64>) -> TemporalRelation {
    if same_counts(a, b) {
        TemporalRelation::Equal
    } else if strictly_precedes(a, b) {
        TemporalRelation::Caused
    } else if strictly_precedes(b, a) {
        TemporalRelation::EffectOf
    } else {
        TemporalRelation::Concurrent
    }
}

/// The clock `m` after one more tick of `host`.
pub open spec fn incremented<H>(m: Map<H, u64>, host: H) -> Map<H, u64>
    recommends
        count(m, host) < u64::MAX,
{
    m.insert(host, (count(m, host) + 1) as u64)
}

/// The larger of two counts.
pub open spec fn larger(x: u64, y: u64) -> u64 {
    if x >= y {
        x
    } else {
        y
    }
}

/// The least clock that neither `a` nor `b` is ahead of: for every host the
/// larger of its two counts.
pub open spec fn merged<H>(a: Map<H, u64>, b: Map<H, u64>) -> Map<H, u64> {
    Map::new(
        |h: H| a.contains_key(h) || b.contains_key(h),
        |h: H| larger(count(a, h), count(b, h)),
    )
}

/// The count that `pairs` gives for `host`: that of the last pair naming it,
/// or zero where none does.
pub open spec fn listed_count<H>(pairs: Seq<(H, u64)>, host: H) -> u64
    decreases pairs.len(),
{
    if pairs.len() == 0 {
        0
    } else if pairs.last().0 == host {
        pairs.last().1
    } else {
        listed_count(pairs.drop_last(), host)
    }
}

/// The clock that `pairs` describes: every host at its listed count, and
/// no entry for a host listed at zero or not at all.
pub open spec fn from_pairs<H>(pairs: Seq<(H, u64)>) -> Map<H, u64> {
    Map::new(|h: H| listed_count(pairs, h) >= 1, |h: H| listed_count(pairs, h))
}

/// `pairs` lists the entries of `m`: each of them once, none with a zero.
pub open spec fn lists<H>(pairs: Seq<(H, u64)>, m: Map<H, u64>) -> bool {
    &&& forall|i: int, j: int|
        0 <= i < j < pairs.len() ==> (#[trigger] pairs[i]).0 != (#[trigger] pairs[j]).0
    &&& forall|i: int|
        0 <= i < pairs.len() ==> {
            &&& m.contains_key((#[trigger] pairs[i]).0)
            &&& m[pairs[i].0] == pairs[i].1
            &&& pairs[i].1 >= 1
        }
    &&& forall|h: H| #[trigger]
        m.contains_key(h) ==> exists|i: int|
            0 <= i < pairs.len() && (#[trigger] pairs[i]).0 == h
}

/// Two clocks without zero entries record the same counts exactly when they
/// are the same map.
pub proof fn lemma_same_counts<H>(a: Map<H, u64>, b: Map<H, u64>)
    requires
        sparse(a),
        sparse(b),
    ensures
        same_counts(a, b) <==> a == b,
{
    if same_counts(a, b) {
        assert forall|h: H|
            a.contains_key(h) == b.contains_key(h) && (a.contains_key(h) ==> a[h] == b[h]) by {
            assert(count(a, h) == count(b, h));
        }
        assert(a =~= b);
    }
}

/// One more pair at the end sets the count of its host and leaves the
/// other hosts alone.
pub proof fn lemma_from_pairs_push<H>(pairs: Seq<(H, u64)>, host: H, n: u64)
    ensures
        from_pairs(pairs.push((host, n))) == if n == 0 {
            from_pairs(pairs).remove(host)
        } else {
            from_pairs(pairs).insert(host, n)
        },
{
    let longer = pairs.push((host, n));
    assert(longer.drop_last() =~= pairs);
    assert forall|h: H|
        listed_count(longer, h) == if h == host {
            n
        } else {
            listed_count(pairs, h)
        } by {}
    if n == 0 {
        assert(from_pairs(longer) =~= from_pairs(pairs).remove(host));
    } else {
        assert(from_pairs(longer) =~= from_pairs(pairs).insert(host, n));
    }
}

} // verus!
