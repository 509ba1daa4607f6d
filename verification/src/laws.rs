//! What holds of every clock: the algebra of merging, the shape of the causal
//! order, and what survives a trip through a list of pairs.
//!
//! Each law is stated over the model, on the maps that clocks are viewed as.

use vstd::prelude::*;
use crate::clock::TemporalRelation;
use crate::model::{
    count, from_pairs, incremented, lists, listed_count, merged, precedes, relation, same_counts,
};

verus! {

/// Every clock is equal to itself in the causal order.
pub proof fn lemma_relation_reflexive<H>(a: Map<H, u64>)
    ensures
        relation(a, a) == TemporalRelation::Equal,
{
}

/// Read from the other side, `Caused` and `EffectOf` change places, and
/// `Equal` and `Concurrent` stay.
pub proof fn lemma_relation_converse<H>(a: Map<H, u64>, b: Map<H, u64>)
    ensures
        relation(b, a) == match relation(a, b) {
            TemporalRelation::Equal => TemporalRelation::Equal,
            TemporalRelation::Caused => TemporalRelation::EffectOf,
            TemporalRelation::EffectOf => TemporalRelation::Caused,
            TemporalRelation::Concurrent => TemporalRelation::Concurrent,
        },
{
    if same_counts(a, b) {
        assert forall|h: H| count(b, h) == count(a, h) by {
            assert(count(a, h) == count(b, h));
        }
    }
    if same_counts(b, a) {
        assert forall|h: H| count(a, h) == count(b, h) by {
            assert(count(b, h) == count(a, h));
        }
    }
    if precedes(a, b) && precedes(b, a) {
        assert forall|h: H| count(a, h) == count(b, h) by {
            assert(count(a, h) <= count(b, h));
            assert(count(b, h) <= count(a, h));
        }
    }
}

/// A tick puts a clock after what it was: the old clock caused the new one.
pub proof fn lemma_increment_is_caused<H>(a: Map<H, u64>, host: H)
    requires
        count(a, host) < u64::MAX,
    ensures
        relation(a, incremented(a, host)) == TemporalRelation::Caused,
        relation(incremented(a, host), a) == TemporalRelation::EffectOf,
{
    let b = incremented(a, host);
    assert(count(a, host) < count(b, host));
    assert forall|h: H| count(a, h) <= count(b, h) by {}
    lemma_relation_converse(a, b);
}

/// Ticks of two different hosts on one clock give concurrent clocks.
pub proof fn lemma_divergence_is_concurrent<H>(a: Map<H, u64>, first: H, second: H)
    requires
        first != second,
        count(a, first) < u64::MAX,
        count(a, second) < u64::MAX,
    ensures
        relation(incremented(a, first), incremented(a, second)) == TemporalRelation::Concurrent,
        relation(incremented(a, second), incremented(a, first)) == TemporalRelation::Concurrent,
{
    let x = incremented(a, first);
    let y = incremented(a, second);
    assert(count(x, first) > count(y, first));
    assert(count(x, second) < count(y, second));
    lemma_relation_converse(x, y);
}

/// A merge is ahead of neither of its inputs on any host, and no clock that
/// both inputs precede is behind it.
pub proof fn lemma_merge_is_least_upper_bound<H>(a: Map<H, u64>, b: Map<H, u64>, c: Map<H, u64>)
    ensures
        precedes(a, merged(a, b)),
        precedes(b, merged(a, b)),
        precedes(a, c) && precedes(b, c) ==> precedes(merged(a, b), c),
{
    let m = merged(a, b);
    assert forall|h: H| count(a, h) <= count(m, h) && count(b, h) <= count(m, h) by {}
    if precedes(a, c) && precedes(b, c) {
        assert forall|h: H| count(m, h) <= count(c, h) by {
            assert(count(a, h) <= count(c, h));
            assert(count(b, h) <= count(c, h));
        }
    }
}

/// A merge is the effect of each input, or equal to an input that the
/// other one precedes; it never caused an input and is concurrent with none.
pub proof fn lemma_merge_dominates<H>(a: Map<H, u64>, b: Map<H, u64>)
    ensures
        relation(merged(a, b), a) == if precedes(b, a) {
            TemporalRelation::Equal
        } else {
            TemporalRelation::EffectOf
        },
        relation(merged(a, b), b) == if precedes(a, b) {
            TemporalRelation::Equal
        } else {
            TemporalRelation::EffectOf
        },
{
    let m = merged(a, b);
    lemma_merge_is_least_upper_bound(a, b, a);
    lemma_merge_is_least_upper_bound(a, b, b);
    if precedes(b, a) {
        assert forall|h: H| count(m, h) == count(a, h) by {
            assert(count(b, h) <= count(a, h));
        }
    } else {
        let h = choose|h: H| !(count(b, h) <= count(a, h));
        assert(count(m, h) != count(a, h));
        assert(!(count(m, h) <= count(a, h)));
    }
    if precedes(a, b) {
        assert forall|h: H| count(m, h) == count(b, h) by {
            assert(count(a, h) <= count(b, h));
        }
    } else {
        let h = choose|h: H| !(count(a, h) <= count(b, h));
        assert(count(m, h) != count(b, h));
        assert(!(count(m, h) <= count(b, h)));
    }
}

/// Merging does not depend on the order of its inputs.
pub proof fn lemma_merge_commutative<H>(a: Map<H, u64>, b: Map<H, u64>)
    ensures
        merged(a, b) == merged(b, a),
{
    assert(merged(a, b) =~= merged(b, a));
}

/// Merging three clocks does not depend on which two are merged first.
pub proof fn lemma_merge_associative<H>(a: Map<H, u64>, b: Map<H, u64>, c: Map<H, u64>)
    ensures
        merged(merged(a, b), c) == merged(a, merged(b, c)),
{
    assert(merged(merged(a, b), c) =~= merged(a, merged(b, c)));
}

/// Merging a clock with itself changes nothing.
pub proof fn lemma_merge_idempotent<H>(a: Map<H, u64>)
    ensures
        merged(a, a) == a,
{
    assert(merged(a, a) =~= a);
}

/// A clock comes back from any list of its entries, whatever their order.
pub proof fn lemma_round_trip<H>(a: Map<H, u64>, pairs: Seq<(H, u64)>)
    requires
        lists(pairs, a),
    ensures
        from_pairs(pairs) == a,
{
    assert forall|h: H| listed_count(pairs, h) == count(a, h) by {
        lemma_listed_count(a, pairs, h);
    }
    assert(from_pairs(pairs) =~= a);
}

/// A list of the entries of a clock gives every host the count that the
/// clock records for it.
proof fn lemma_listed_count<H>(a: Map<H, u64>, pairs: Seq<(H, u64)>, host: H)
    requires
        lists(pairs, a),
    ensures
        listed_count(pairs, host) == count(a, host),
        a.contains_key(host) ==> a[host] >= 1,
{
    if a.contains_key(host) {
        let i = choose|i: int| 0 <= i < pairs.len() && #[trigger] pairs[i].0 == host;
        lemma_listed_count_at(pairs, i);
        assert(a.contains_key(pairs[i].0));
    } else {
        lemma_listed_count_absent(pairs, host);
    }
}

/// Where no host is named twice, the listed count of a named host is the
/// count of its pair.
proof fn lemma_listed_count_at<H>(pairs: Seq<(H, u64)>, i: int)
    requires
        0 <= i < pairs.len(),
        forall|j: int, k: int| 0 <= j < k < pairs.len() ==> pairs[j].0 != pairs[k].0,
    ensures
        listed_count(pairs, pairs[i].0) == pairs[i].1,
    decreases pairs.len(),
{
    if i < pairs.len() - 1 {
        lemma_listed_count_at(pairs.drop_last(), i);
    }
}

/// A host that no pair names has the listed count zero.
proof fn lemma_listed_count_absent<H>(pairs: Seq<(H, u64)>, host: H)
    requires
        forall|i: int| 0 <= i < pairs.len() ==> pairs[i].0 != host,
    ensures
        listed_count(pairs, host) == 0,
    decreases pairs.len(),
{
    if pairs.len() > 0 {
        lemma_listed_count_absent(pairs.drop_last(), host);
    }
}

} // verus!
