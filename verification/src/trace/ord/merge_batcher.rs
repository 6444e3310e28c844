//! Batchers: builders of batches from tuples that arrive in any order,
//! one vector of them after the other.
//!
//! A batcher makes a batch of each vector and keeps the batches in a
//! trace, which merges batches of like size as a merge sort does. Sealing
//! the batcher gives the one batch that they make together.

use vstd::prelude::*;
use crate::algebra::AddByRef;
use crate::algebra::HasZero;
use crate::algebra::MonoidValue;
use crate::order::faithful_clone;
use crate::order::lawful;
use crate::time::Timestamp;
use crate::trace::ord::indexed_zset_batch::OrdIndexedZSet;
use crate::trace::ord::indexed_zset_batch::added_indexed;
use crate::trace::ord::key_batch::OrdKeyBatch;
use crate::trace::ord::key_batch::added_timed;
use crate::trace::ord::zset_batch::OrdZSet;
use crate::trace::ord::zset_batch::added_weights;
use crate::trace::ord::zset_batch::weights_of;
use crate::trace::spine_fueled::Spine;
use crate::operator::trace::stamped;
use crate::zset::weight_of;

verus! {

/// A batcher of batches of type `B`, all of them at the time `time`.
pub struct MergeBatcher<B, T> {
    pub time: T,
    pub sorted: Spine<B>,
}

impl<K: Ord + Clone, R: MonoidValue> MergeBatcher<OrdZSet<K, R>, ()> {
    /// A batcher that holds nothing.
    pub fn new_batcher(time: ()) -> (batcher: Self)
        ensures
            batcher.sorted.wf(),
            batcher.sorted.model() == OrdZSet::<K, R>::zero_model(),
    {
        MergeBatcher { time, sorted: Spine::new() }
    }

    /// Takes the tuples of `batch`, which is left empty.
    pub fn push_batch(&mut self, batch: &mut Vec<(K, R)>)
        requires
            old(self).sorted.wf(),
            lawful::<K>(),
            faithful_clone::<K>(),
        ensures
            final(self).sorted.wf(),
            final(batch)@.len() == 0,
            final(self).sorted.model() == added_weights(
                old(self).sorted.model(),
                weights_of(old(batch)@),
            ),
    {
        let mut tuples: Vec<(K, R)> = Vec::new();
        core::mem::swap(batch, &mut tuples);
        let ghost taken = tuples@;
        let zset = OrdZSet::from_tuples((), tuples);
        proof {
            assert(taken == old(batch)@);
            assert forall|k: K| #[trigger] zset.weights()(k) == weights_of(taken)(k) by {
                assert(zset.weight(k) == weight_of(taken, k));
            }
            assert(zset.weights() =~= weights_of(old(batch)@));
        }
        self.sorted.insert(zset);
    }

    /// The Z-set of all tuples taken.
    pub fn seal(self) -> (zset: OrdZSet<K, R>)
        requires
            self.sorted.wf(),
            lawful::<K>(),
            faithful_clone::<K>(),
        ensures
            zset.valid(),
            zset.weights() == self.sorted.model(),
    {
        self.sorted.consolidate()
    }
}

/// The indexed Z-set that a sequence of tuples stands for.
pub open spec fn indexed_weights_of<K, V, R: MonoidValue>(s: Seq<((K, V), R)>) -> spec_fn(K, V) -> R {
    |k: K, v: V| weight_of(s, (k, v))
}

impl<K: Ord + Clone, V: Ord + Clone, R: MonoidValue> MergeBatcher<OrdIndexedZSet<K, V, R>, ()> {
    /// A batcher that holds nothing.
    pub fn new_batcher(time: ()) -> (batcher: Self)
        ensures
            batcher.sorted.wf(),
            batcher.sorted.model() == OrdIndexedZSet::<K, V, R>::zero_model(),
    {
        MergeBatcher { time, sorted: Spine::new() }
    }

    /// Takes the tuples of `batch`, which is left empty.
    pub fn push_batch(&mut self, batch: &mut Vec<((K, V), R)>)
        requires
            old(self).sorted.wf(),
            lawful::<K>(),
            lawful::<V>(),
            faithful_clone::<K>(),
            faithful_clone::<V>(),
        ensures
            final(self).sorted.wf(),
            final(batch)@.len() == 0,
            final(self).sorted.model() == added_indexed(
                old(self).sorted.model(),
                indexed_weights_of(old(batch)@),
            ),
    {
        let mut tuples: Vec<((K, V), R)> = Vec::new();
        core::mem::swap(batch, &mut tuples);
        let ghost taken = tuples@;
        let zset = OrdIndexedZSet::from_tuples((), tuples);
        proof {
            assert(taken == old(batch)@);
            assert forall|k: K, v: V| #[trigger]
                zset.weights()(k, v) == indexed_weights_of(taken)(k, v) by {
                assert(zset.weight(k, v) == weight_of(taken, (k, v)));
            }
            assert(zset.weights() =~= indexed_weights_of(old(batch)@));
        }
        self.sorted.insert(zset);
    }

    /// The indexed Z-set of all tuples taken.
    pub fn seal(self) -> (zset: OrdIndexedZSet<K, V, R>)
        requires
            self.sorted.wf(),
            lawful::<K>(),
            lawful::<V>(),
            faithful_clone::<K>(),
            faithful_clone::<V>(),
        ensures
            zset.valid(),
            zset.weights() == self.sorted.model(),
    {
        self.sorted.consolidate()
    }
}

impl<K: Ord + Clone, T: Ord + Clone + Timestamp, R: MonoidValue> MergeBatcher<OrdKeyBatch<K, T, R>, T> {
    /// A batcher of batches at `time` that holds nothing.
    pub fn new_batcher(time: T) -> (batcher: Self)
        ensures
            batcher.time == time,
            batcher.sorted.wf(),
            batcher.sorted.model() == OrdKeyBatch::<K, T, R>::zero_model(),
    {
        MergeBatcher { time, sorted: Spine::new() }
    }

    /// Takes the tuples of `batch`, which is left empty, at the time of
    /// the batcher.
    pub fn push_batch(&mut self, batch: &mut Vec<(K, R)>)
        requires
            old(self).sorted.wf(),
            lawful::<K>(),
            lawful::<T>(),
            faithful_clone::<K>(),
            faithful_clone::<T>(),
        ensures
            final(self).time == old(self).time,
            final(self).sorted.wf(),
            final(batch)@.len() == 0,
            final(self).sorted.model() == added_timed(
                old(self).sorted.model(),
                stamped(weights_of(old(batch)@), old(self).time),
            ),
    {
        let mut tuples: Vec<(K, R)> = Vec::new();
        core::mem::swap(batch, &mut tuples);
        let ghost taken = tuples@;
        let timed = OrdKeyBatch::from_tuples(self.time.copy_time(), tuples);
        proof {
            assert(taken == old(batch)@);
            assert forall|k: K, t: T| #[trigger]
                timed.weights()(k, t) == stamped(weights_of(taken), self.time)(k, t) by {
                assert(timed.weight(k, t) == (if t == self.time {
                    weight_of(taken, k)
                } else {
                    R::zero_spec()
                }));
            }
            assert(timed.weights() =~= stamped(weights_of(old(batch)@), self.time));
        }
        self.sorted.insert(timed);
    }

    /// The batch of all tuples taken.
    pub fn seal(self) -> (batch: OrdKeyBatch<K, T, R>)
        requires
            self.sorted.wf(),
            lawful::<K>(),
            lawful::<T>(),
            faithful_clone::<K>(),
            faithful_clone::<T>(),
        ensures
            batch.wf(),
            batch.weights() == self.sorted.model(),
    {
        self.sorted.consolidate()
    }
}

/// Create a Z-set with specified elements: each key with its weight.
pub fn zset<K: Ord + Clone, R: MonoidValue>(tuples: Vec<(K, R)>) -> (zset: OrdZSet<K, R>)
    requires
        lawful::<K>(),
        faithful_clone::<K>(),
    ensures
        zset.valid(),
        zset.weights() == weights_of(tuples@),
{
    let mut batcher = MergeBatcher::<OrdZSet<K, R>, ()>::new_batcher(());
    let mut batch = tuples;
    batcher.push_batch(&mut batch);
    let zset = batcher.seal();
    proof {
        OrdZSet::<K, R>::lemma_add_model_commutative(
            OrdZSet::<K, R>::zero_model(),
            weights_of(tuples@),
        );
        OrdZSet::<K, R>::lemma_add_model_zero(weights_of(tuples@));
    }
    zset
}

/// The pairs of the keys with the weight 1.
pub open spec fn each_once<K>(keys: Seq<K>) -> Seq<(K, isize)> {
    Seq::new(keys.len(), |i: int| (keys[i], 1isize))
}

/// Create a Z-set with specified elements all with weight 1.
pub fn zset_set<K: Ord + Clone>(keys: Vec<K>) -> (zset: OrdZSet<K, isize>)
    requires
        lawful::<K>(),
        faithful_clone::<K>(),
    ensures
        zset.valid(),
        zset.weights() == weights_of(each_once(keys@)),
{
    let mut tuples: Vec<(K, isize)> = Vec::with_capacity(keys.len());
    for key in it: keys.into_iter()
        invariant
            it.seq() == keys@,
            tuples@ == each_once(keys@.subrange(0, it.index())),
    {
        tuples.push((key, 1));
        proof {
            assert(tuples@ =~= each_once(keys@.subrange(0, it.index() + 1)));
        }
    }
    proof {
        assert(keys@.subrange(0, keys@.len() as int) =~= keys@);
    }
    self::zset(tuples)
}

/// Create an indexed Z-set with specified elements: each tuple of a key
/// and a value with its weight.
pub fn indexed_zset<K: Ord + Clone, V: Ord + Clone, R: MonoidValue>(tuples: Vec<((K, V), R)>) -> (zset:
    OrdIndexedZSet<K, V, R>)
    requires
        lawful::<K>(),
        lawful::<V>(),
        faithful_clone::<K>(),
        faithful_clone::<V>(),
    ensures
        zset.valid(),
        zset.weights() == indexed_weights_of(tuples@),
{
    let mut batcher = MergeBatcher::<OrdIndexedZSet<K, V, R>, ()>::new_batcher(());
    let mut batch = tuples;
    batcher.push_batch(&mut batch);
    let zset = batcher.seal();
    proof {
        OrdIndexedZSet::<K, V, R>::lemma_add_model_commutative(
            OrdIndexedZSet::<K, V, R>::zero_model(),
            indexed_weights_of(tuples@),
        );
        OrdIndexedZSet::<K, V, R>::lemma_add_model_zero(indexed_weights_of(tuples@));
    }
    zset
}

} // verus!
