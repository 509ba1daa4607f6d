//! The clock itself, kept as a hash map from the hosts that have ticked to
//! their counts.

use std::collections::hash_map::Entry;
use std::collections::HashMap;
use std::hash::Hash;
use vstd::prelude::*;
use vstd::std_specs::hash::{obeys_key_model, spec_hash_map_iter};
use vstd::std_specs::iter::IteratorSpec;
use crate::model::{
    count, from_pairs, incremented, larger, lemma_from_pairs_push, lemma_same_counts, lists,
    merged, relation, sparse, strictly_precedes,
};

verus! {

broadcast use vstd::std_specs::hash::group_hash_axioms;

/// The causal relationship in which one clock stands to another.
#[derive(Debug, PartialEq, Eq, Copy, Clone, Structural)]
pub enum TemporalRelation {
    /// Both clocks record the same count for every host.
    Equal,
    /// The first clock happened before the second.
    Caused,
    /// The second clock happened before the first.
    EffectOf,
    /// Neither clock happened before the other.
    Concurrent,
}

/// What a host type must offer to key a clock: its hashing and its `==`
/// agree with equality of values, and a clone of a host is that host.
///
/// The integer types meet this, by the axioms of
/// `vstd::std_specs::hash::group_hash_axioms`.
pub open spec fn valid_host<HostType: Clone>() -> bool {
    &&& obeys_key_model::<HostType>()
    &&& forall|a: HostType, b: HostType| #[trigger]
        call_ensures(HostType::clone, (&a,), b) ==> a == b
}

/// A vector clock over hosts of type `HostType`.
///
/// Only hosts that have ticked are stored; every other host counts zero.
/// A clock is never changed: each operation gives a new one.
#[derive(Debug)]
pub struct VectorClock<HostType: Clone + Hash + Eq> {
    entries: HashMap<HostType, u64>,
}

impl<HostType: Clone + Hash + Eq> View for VectorClock<HostType> {
    type V = Map<HostType, u64>;

    /// The stored counts: the hosts that have ticked, each with its count.
    closed spec fn view(&self) -> Map<HostType, u64> {
        self.entries@
    }
}

/// A walk over `m` comes by every entry of `m`.
proof fn lemma_walk_visits<HostType>(m: &HashMap<HostType, u64>, host: HostType)
    requires
        m@.contains_key(host),
    ensures
        exists|i: int|
            0 <= i < spec_hash_map_iter(m).remaining().len() && *(
            #[trigger] spec_hash_map_iter(m).remaining()[i]).0 == host
                && *spec_hash_map_iter(m).remaining()[i].1 == m@[host],
{
    let v = spec_hash_map_iter(m).remaining();
    assert(v.contains((&host, &m@[host])));
    let i = choose|i: int| 0 <= i < v.len() && v[i] == (&host, &m@[host]);
    assert(*v[i].0 == host && *v[i].1 == m@[host]);
}

/// A walk over `m` yields entries of `m` only.
proof fn lemma_walk_yields_entries<HostType>(m: &HashMap<HostType, u64>, i: int)
    requires
        0 <= i < spec_hash_map_iter(m).remaining().len(),
    ensures
        m@.contains_key(*spec_hash_map_iter(m).remaining()[i].0),
        m@[*spec_hash_map_iter(m).remaining()[i].0] == *spec_hash_map_iter(m).remaining()[i].1,
{
}

impl<HostType: Clone + Hash + Eq> PartialEq for VectorClock<HostType> {
    /// Two clocks are equal when they store the same counts.
    fn eq(&self, other: &Self) -> (r: bool) {
        proof {
            use_type_invariant(self);
            use_type_invariant(other);
        }
        if self.entries.len() != other.entries.len() {
            return false;
        }
        for (host, self_n) in it: self.entries.iter()
            invariant
                valid_host::<HostType>(),
                it.seq() == spec_hash_map_iter(&self.entries).remaining(),
                forall|i: int|
                    0 <= i < it.index() ==> other@.contains_key(*(#[trigger] it.seq()[i]).0)
                        && other@[*it.seq()[i].0] == *it.seq()[i].1,
        {
            match other.entries.get(host) {
                Some(other_n) => {
                    if *self_n != *other_n {
                        return false;
                    }
                },
                None => {
                    return false;
                },
            }
        }
        proof {
            assert forall|h: HostType| self@.contains_key(h) implies other@.contains_key(h)
                && other@[h] == self@[h] by {
                lemma_walk_visits(&self.entries, h);
            }
            assert(self@.dom().subset_of(other@.dom()));
            vstd::set_lib::lemma_subset_equality(self@.dom(), other@.dom());
            assert(self@ =~= other@);
        }
        true
    }
}

impl<HostType: Clone + Hash + Eq> vstd::std_specs::cmp::PartialEqSpecImpl for VectorClock<HostType> {
    open spec fn obeys_eq_spec() -> bool {
        true
    }

    open spec fn eq_spec(&self, other: &Self) -> bool {
        self@ == other@
    }
}

impl<HostType: Clone + Hash + Eq> Eq for VectorClock<HostType> {}

impl<HostType: Clone + Hash + Eq> VectorClock<HostType> {
    /// The host type is a valid key, and no stored count is zero.
    #[verifier::type_invariant]
    spec fn well_formed(&self) -> bool {
        &&& valid_host::<HostType>()
        &&& sparse(self.entries@)
    }

    /// The clock on which no host has ticked.
    pub fn new() -> (clock: VectorClock<HostType>)
        requires
            valid_host::<HostType>(),
        ensures
            clock@ == Map::<HostType, u64>::empty(),
    {
        VectorClock { entries: HashMap::new() }
    }

    /// The clock after one more tick of `host`; `self` stays as it is.
    ///
    /// A count cannot pass `u64::MAX`.
    pub fn incremented(&self, host: HostType) -> (clock: Self)
        requires
            count(self@, host) < u64::MAX,
        ensures
            clock@ == incremented(self@, host),
    {
        proof {
            use_type_invariant(self);
        }
        let mut entries = self.entries.clone();

        match entries.entry(host) {
            Entry::Vacant(e) => {
                e.insert(1);
            },
            Entry::Occupied(mut e) => {
                let v = *e.get();
                e.insert(v + 1);
            },
        };

        VectorClock { entries }
    }

    /// How `self` stands to `other` in the causal order.
    pub fn temporal_relation(&self, other: &Self) -> (r: TemporalRelation)
        ensures
            r == relation(self@, other@),
            r == TemporalRelation::Equal <==> self@ == other@,
    {
        proof {
            use_type_invariant(self);
            use_type_invariant(other);
            lemma_same_counts(self@, other@);
        }
        if self == other {
            TemporalRelation::Equal
        } else if self.superseded_by(other) {
            TemporalRelation::Caused
        } else if other.superseded_by(self) {
            TemporalRelation::EffectOf
        } else {
            TemporalRelation::Concurrent
        }
    }

    /// The count of `host`, zero where it has no entry.
    fn count_of(&self, host: &HostType) -> (n: u64)
        ensures
            n == count(self@, *host),
    {
        proof {
            use_type_invariant(self);
        }
        match self.entries.get(host) {
            Some(n) => *n,
            None => 0,
        }
    }

    /// On `host`, `self` is not ahead of `other`; and level with it, unless
    /// a host was found on which `self` is behind.
    spec fn in_step(&self, other: &Self, host: HostType, has_smaller: bool) -> bool {
        &&& count(self@, host) <= count(other@, host)
        &&& !has_smaller ==> count(self@, host) == count(other@, host)
    }

    /// Whether `self` happened before `other`.
    ///
    /// Both clocks are walked: a host that only `other` has stored is seen
    /// in the second walk alone.
    fn superseded_by(&self, other: &Self) -> (r: bool)
        ensures
            r == strictly_precedes(self@, other@),
    {
        proof {
            use_type_invariant(self);
            use_type_invariant(other);
        }
        let mut has_smaller = false;

        for (host, self_n) in it: self.entries.iter()
            invariant
                valid_host::<HostType>(),
                it.seq() == spec_hash_map_iter(&self.entries).remaining(),
                has_smaller ==> exists|h: HostType| count(self@, h) < count(other@, h),
                forall|i: int|
                    0 <= i < it.index() ==> self.in_step(
                        other,
                        *(#[trigger] it.seq()[i]).0,
                        has_smaller,
                    ),
        {
            let other_n = other.count_of(host);

            if *self_n > other_n {
                return false;
            }
            has_smaller = has_smaller || (*self_n < other_n);
        }

        proof {
            assert forall|h: HostType| self@.contains_key(h) implies self.in_step(
                other,
                h,
                has_smaller,
            ) by {
                lemma_walk_visits(&self.entries, h);
            }
        }

        for (host, other_n) in it: other.entries.iter()
            invariant
                valid_host::<HostType>(),
                it.seq() == spec_hash_map_iter(&other.entries).remaining(),
                has_smaller ==> exists|h: HostType| count(self@, h) < count(other@, h),
                forall|h: HostType| #[trigger]
                    self@.contains_key(h) ==> self.in_step(other, h, has_smaller),
                forall|i: int|
                    0 <= i < it.index() ==> self.in_step(
                        other,
                        *(#[trigger] it.seq()[i]).0,
                        has_smaller,
                    ),
        {
            let self_n = self.count_of(host);

            if self_n > *other_n {
                return false;
            }
            has_smaller = has_smaller || (self_n < *other_n);
        }

        proof {
            assert forall|h: HostType| self.in_step(other, h, has_smaller) by {
                if other@.contains_key(h) {
                    lemma_walk_visits(&other.entries, h);
                }
            }
        }
        has_smaller
    }

    /// The clock that succeeds both `self` and `other`: every host at the
    /// larger of its two counts.
    pub fn merge_with(&self, other: &Self) -> (clock: Self)
        ensures
            clock@ == merged(self@, other@),
    {
        proof {
            use_type_invariant(self);
            use_type_invariant(other);
        }
        let mut entries = self.entries.clone();

        for (host, other_n) in it: other.entries.iter()
            invariant
                valid_host::<HostType>(),
                it.seq() == spec_hash_map_iter(&other.entries).remaining(),
                sparse(other@),
                sparse(entries@),
                forall|h: HostType|
                    #[trigger] count(self@, h) <= count(entries@, h) <= larger(
                        count(self@, h),
                        count(other@, h),
                    ),
                forall|i: int|
                    0 <= i < it.index() ==> count(other@, *(#[trigger] it.seq()[i]).0) <= count(
                        entries@,
                        *it.seq()[i].0,
                    ),
        {
            proof {
                lemma_walk_yields_entries(&other.entries, it.index());
            }
            match entries.entry(host.clone()) {
                Entry::Vacant(e) => {
                    e.insert(*other_n);
                },
                Entry::Occupied(mut e) => {
                    let self_n = *e.get();

                    if *other_n > self_n {
                        e.insert(*other_n);
                    }
                },
            }
        }

        proof {
            assert forall|h: HostType|
                count(entries@, h) == larger(#[trigger] count(self@, h), count(other@, h)) by {
                if other@.contains_key(h) {
                    lemma_walk_visits(&other.entries, h);
                }
            }
            assert forall|h: HostType|
                entries@.contains_key(h) == merged(self@, other@).contains_key(h) && (
                entries@.contains_key(h) ==> entries@[h] == merged(self@, other@)[h]) by {
                assert(count(entries@, h) == larger(count(self@, h), count(other@, h)));
            }
            assert(entries@ =~= merged(self@, other@));
        }
        VectorClock { entries }
    }

    /// The stored entries, each host once with its count, in no particular
    /// order.
    pub fn to_vec(&self) -> (pairs: Vec<(HostType, u64)>)
        ensures
            lists(pairs@, self@),
            pairs@.len() == self@.len(),
    {
        proof {
            use_type_invariant(self);
        }
        let mut pairs: Vec<(HostType, u64)> = Vec::new();

        for (host, n) in it: self.entries.iter()
            invariant
                valid_host::<HostType>(),
                it.seq() == spec_hash_map_iter(&self.entries).remaining(),
                it.seq().no_duplicates(),
                pairs@.len() == it.index(),
                forall|i: int|
                    0 <= i < it.index() ==> (#[trigger] pairs@[i]).0 == *it.seq()[i].0
                        && pairs@[i].1 == *it.seq()[i].1,
        {
            pairs.push((host.clone(), *n));
        }

        proof {
            let v = spec_hash_map_iter(&self.entries).remaining();
            assert forall|h: HostType| #[trigger] self@.contains_key(h) implies exists|i: int|
                0 <= i < pairs@.len() && #[trigger] pairs@[i].0 == h by {
                lemma_walk_visits(&self.entries, h);
                let i = choose|i: int|
                    0 <= i < v.len() && *(#[trigger] v[i]).0 == h && *v[i].1 == self@[h];
                assert(pairs@[i].0 == h);
            }
            assert forall|i: int| 0 <= i < pairs@.len() implies self@.contains_key(
                #[trigger] pairs@[i].0,
            ) && self@[pairs@[i].0] == pairs@[i].1 && pairs@[i].1 >= 1 by {
                lemma_walk_yields_entries(&self.entries, i);
            }
            assert forall|i: int, j: int| 0 <= i < j < pairs@.len() implies pairs@[i].0
                != pairs@[j].0 by {
                lemma_walk_yields_entries(&self.entries, i);
                lemma_walk_yields_entries(&self.entries, j);
                assert(v[i] != v[j]);
            }
        }
        pairs
    }

    /// The clock that `v` describes. Where a host is named more than once,
    /// its last pair counts; a host given a zero has no entry.
    pub fn from_vec(v: Vec<(HostType, u64)>) -> (clock: VectorClock<HostType>)
        requires
            valid_host::<HostType>(),
        ensures
            clock@ == from_pairs(v@),
    {
        let ghost pairs = v@;
        let mut entries: HashMap<HostType, u64> = HashMap::new();
        proof {
            assert(entries@ =~= from_pairs(pairs.take(0)));
        }

        for (host, n) in it: v.into_iter()
            invariant
                valid_host::<HostType>(),
                it.seq() == pairs,
                entries@ == from_pairs(pairs.take(it.index())),
        {
            proof {
                lemma_from_pairs_push(pairs.take(it.index()), host, n);
                assert(pairs.take(it.index() + 1) =~= pairs.take(it.index()).push((host, n)));
            }
            if n == 0 {
                entries.remove(&host);
            } else {
                entries.insert(host, n);
            }
        }

        proof {
            assert(pairs.take(pairs.len() as int) =~= pairs);
        }
        VectorClock { entries }
    }
}

} // verus!
