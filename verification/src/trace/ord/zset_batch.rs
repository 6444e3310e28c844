//! Z-sets: untimed batches of keys with weights.

use vstd::prelude::*;
use crate::algebra::AddByRef;
use crate::algebra::GroupValue;
use crate::algebra::HasZero;
use crate::algebra::MonoidValue;
use crate::algebra::NegByRef;
use crate::algebra::NumEntries;
use crate::algebra::clone_weight;
use crate::order::duplicate;
use crate::order::faithful_clone;
use crate::order::lawful;
use crate::trace::consolidation::consolidate;
use crate::trace::layers::column_layer::ColumnLayer;
use crate::trace::layers::column_layer::ColumnLayerBuilder;
use crate::trace::layers::column_layer::ColumnLayerCursor;
use crate::zset::consolidated;
use crate::zset::pairs;
use crate::zset::weight_of;
use crate::zset::lemma_consolidated_negated;
use crate::zset::lemma_weight_at;
use crate::zset::lemma_weight_negated;

verus! {

/// A Z-set: each key with its weight, sorted by key, no weight zero.
#[derive(Debug, Clone, PartialEq, Eq)]
pub struct OrdZSet<K, R> {
    pub layer: ColumnLayer<K, R>,
}

/// The Z-set in which every key has weight zero.
pub open spec fn zero_weights<K, R: MonoidValue>() -> spec_fn(K) -> R {
    |k: K| R::zero_spec()
}

/// The Z-set in which every key has the sum of its weights in `a` and `b`.
pub open spec fn added_weights<K, R: MonoidValue>(a: spec_fn(K) -> R, b: spec_fn(K) -> R) -> spec_fn(K) -> R {
    |k: K| a(k).add_spec(b(k))
}

/// The Z-set in which every key has the opposite of its weight in `a`.
pub open spec fn negated_weights<K, R: GroupValue>(a: spec_fn(K) -> R) -> spec_fn(K) -> R {
    |k: K| a(k).neg_spec()
}

/// The Z-set that a sequence of pairs stands for.
pub open spec fn weights_of<K, R: MonoidValue>(s: Seq<(K, R)>) -> spec_fn(K) -> R {
    |k: K| weight_of(s, k)
}

/// A consolidated sequence in which every key has weight zero is empty.
pub proof fn lemma_zero_is_empty<K: Ord, R: MonoidValue>(s: Seq<(K, R)>)
    requires
        lawful::<K>(),
        consolidated(s),
    ensures
        s.len() == 0 <==> weights_of(s) == zero_weights::<K, R>(),
{
    if s.len() == 0 {
        assert(weights_of(s) =~= zero_weights::<K, R>());
    } else {
        lemma_weight_at(s, 0);
        assert(weights_of(s)(s[0].0) == s[0].1);
        assert(zero_weights::<K, R>()(s[0].0) == R::zero_spec());
    }
}

impl<K: Ord + Clone, R: MonoidValue> OrdZSet<K, R> {
    /// The weight of `key`.
    pub open spec fn weight(&self, key: K) -> R {
        weight_of(self.layer.entries(), key)
    }

    /// The Z-set as a function from keys to weights.
    pub open spec fn weights(&self) -> spec_fn(K) -> R {
        weights_of(self.layer.entries())
    }

    /// The layer is consolidated.
    pub open spec fn valid(&self) -> bool {
        self.layer.wf() && consolidated(self.layer.entries())
    }

    /// The number of keys.
    pub fn key_count(&self) -> (n: usize)
        ensures
            n == self.layer.keys@.len(),
    {
        self.layer.keys.len()
    }

    /// The number of tuples, which is the number of keys.
    pub fn len(&self) -> (n: usize)
        ensures
            n == self.layer.keys@.len(),
    {
        self.layer.keys.len()
    }

    /// Whether the Z-set holds no key.
    pub fn is_empty(&self) -> (b: bool)
        ensures
            b == (self.layer.keys@.len() == 0),
    {
        self.layer.keys.len() == 0
    }

    /// The Z-set without keys.
    pub fn empty() -> (zset: Self)
        ensures
            zset.valid(),
            zset.layer.keys@.len() == 0,
            zset.weights() == zero_weights::<K, R>(),
    {
        let zset = OrdZSet { layer: ColumnLayer::empty() };
        proof {
            assert(zset.weights() =~= zero_weights::<K, R>());
        }
        zset
    }

    /// The Z-set of `tuples`: each key has the sum of the weights it
    /// occurs with, and the keys whose sum is zero are not in it.
    pub fn from_tuples(_time: (), tuples: Vec<(K, R)>) -> (zset: Self)
        requires
            lawful::<K>(),
        ensures
            zset.valid(),
            forall|k: K| #[trigger] zset.weight(k) == weight_of(tuples@, k),
    {
        let mut tuples = tuples;
        consolidate(&mut tuples);
        let ghost sorted = tuples@;
        let mut keys: Vec<K> = Vec::with_capacity(tuples.len());
        let mut diffs: Vec<R> = Vec::with_capacity(tuples.len());
        for tuple in it: tuples.into_iter()
            invariant
                it.seq() == sorted,
                keys@.len() == it.index(),
                diffs@.len() == it.index(),
                pairs(keys@, diffs@) == sorted.subrange(0, it.index()),
        {
            let (key, diff) = tuple;
            keys.push(key);
            diffs.push(diff);
            proof {
                assert(pairs(keys@, diffs@) =~= sorted.subrange(0, it.index() + 1));
            }
        }
        proof {
            assert(sorted.subrange(0, sorted.len() as int) =~= sorted);
        }
        OrdZSet { layer: ColumnLayer { keys, diffs } }
    }

    /// The Z-set of `keys` with their weights.
    pub fn from_keys(time: (), keys: Vec<(K, R)>) -> (zset: Self)
        requires
            lawful::<K>(),
        ensures
            zset.valid(),
            forall|k: K| #[trigger] zset.weight(k) == weight_of(keys@, k),
    {
        Self::from_tuples(time, keys)
    }

    /// The union of two Z-sets: each key has the sum of its weights in
    /// the two.
    pub fn merge(&self, other: &Self) -> (merged: Self)
        requires
            self.valid(),
            other.valid(),
            lawful::<K>(),
            faithful_clone::<K>(),
        ensures
            merged.valid(),
            merged.weights() == added_weights(self.weights(), other.weights()),
    {
        let mut builder = ColumnLayerBuilder::with_capacity(self.layer.keys.len());
        let cursor1 = self.layer.cursor();
        let cursor2 = other.layer.cursor();
        proof {
            assert(self.layer.range(0, self.layer.keys@.len() as int) =~= self.layer.entries());
            assert(other.layer.range(0, other.layer.keys@.len() as int) =~= other.layer.entries());
        }
        let end = builder.push_merge(cursor1, cursor2);
        let ghost built = builder.entries();
        let merged = OrdZSet { layer: builder.done() };
        proof {
            assert(merged.layer.entries() =~= built.subrange(0, end as int));
            assert(merged.weights() =~= added_weights(self.weights(), other.weights()));
        }
        merged
    }

    /// A copy of the Z-set.
    pub fn copy(&self) -> (copy: Self)
        requires
            self.layer.wf(),
            faithful_clone::<K>(),
        ensures
            copy.layer.keys@ == self.layer.keys@,
            copy.layer.diffs@ == self.layer.diffs@,
    {
        OrdZSet { layer: self.layer.copy() }
    }

    /// A cursor over the keys, placed on the first key.
    pub fn cursor(&self) -> (cursor: OrdZSetCursor<'_, K, R>)
        requires
            self.layer.wf(),
        ensures
            cursor.wf(),
            cursor.valid,
            cursor.cursor.storage == &self.layer,
            cursor.cursor.pos == 0,
            cursor.cursor.bounds.0 == 0,
            cursor.cursor.bounds.1 == self.layer.keys@.len(),
    {
        OrdZSetCursor { valid: true, cursor: self.layer.cursor() }
    }
}

impl<K: Ord + Clone, R: MonoidValue> NumEntries for OrdZSet<K, R> {
    open spec fn entries_shallow(&self) -> nat {
        self.layer.keys@.len()
    }

    open spec fn entries_deep(&self) -> nat {
        self.layer.keys@.len()
    }

    fn num_entries_shallow(&self) -> (n: usize) {
        self.layer.keys.len()
    }

    fn num_entries_deep(&self) -> (n: usize) {
        self.layer.keys.len()
    }
}

impl<K: Ord + Clone, R: MonoidValue> HasZero for OrdZSet<K, R> {
    type Model = spec_fn(K) -> R;

    open spec fn usable() -> bool {
        lawful::<K>() && faithful_clone::<K>()
    }

    open spec fn wf(&self) -> bool {
        self.valid()
    }

    open spec fn model(&self) -> spec_fn(K) -> R {
        self.weights()
    }

    open spec fn zero_model() -> spec_fn(K) -> R {
        zero_weights::<K, R>()
    }

    fn zero() -> (z: Self) {
        Self::empty()
    }

    fn is_zero(&self) -> (b: bool) {
        proof {
            lemma_zero_is_empty(self.layer.entries());
        }
        self.is_empty()
    }

    fn duplicate(&self) -> (copy: Self) {
        let copy = self.copy();
        proof {
            assert(copy.layer.entries() =~= self.layer.entries());
        }
        copy
    }
}

impl<K: Ord + Clone, R: MonoidValue> AddByRef for OrdZSet<K, R> {
    open spec fn add_model(a: spec_fn(K) -> R, b: spec_fn(K) -> R) -> spec_fn(K) -> R {
        added_weights(a, b)
    }

    proof fn lemma_add_model_commutative(a: spec_fn(K) -> R, b: spec_fn(K) -> R) {
        assert forall|k: K| #[trigger] added_weights(a, b)(k) == added_weights(b, a)(k) by {
            R::lemma_add_commutative(a(k), b(k));
        }
        assert(added_weights(a, b) =~= added_weights(b, a));
    }

    proof fn lemma_add_model_associative(a: spec_fn(K) -> R, b: spec_fn(K) -> R, c: spec_fn(K) -> R) {
        assert forall|k: K| #[trigger]
            added_weights(added_weights(a, b), c)(k) == added_weights(a, added_weights(b, c))(
                k,
            ) by {
            R::lemma_add_associative(a(k), b(k), c(k));
        }
        assert(added_weights(added_weights(a, b), c) =~= added_weights(a, added_weights(b, c)));
    }

    proof fn lemma_add_model_zero(a: spec_fn(K) -> R) {
        assert forall|k: K| #[trigger] added_weights(a, zero_weights::<K, R>())(k) == a(k) by {
            R::lemma_add_zero(a(k));
        }
        assert(added_weights(a, zero_weights::<K, R>()) =~= a);
    }

    fn add_by_ref(&self, other: &Self) -> (sum: Self) {
        self.merge(other)
    }

    fn add_assign_by_ref(&mut self, other: &Self) {
        if !other.is_empty() {
            *self = self.merge(other);
        } else {
            proof {
                lemma_zero_is_empty(other.layer.entries());
                Self::lemma_add_model_zero(self.weights());
            }
        }
    }

    fn plus(self, other: Self) -> (sum: Self) {
        if self.is_empty() {
            proof {
                lemma_zero_is_empty(self.layer.entries());
                Self::lemma_add_model_zero(other.weights());
                Self::lemma_add_model_commutative(self.weights(), other.weights());
            }
            other
        } else if other.is_empty() {
            proof {
                lemma_zero_is_empty(other.layer.entries());
                Self::lemma_add_model_zero(self.weights());
            }
            self
        } else {
            self.merge(&other)
        }
    }
}

/// A cursor over the keys of a Z-set. Each key has the one value `()`.
pub struct OrdZSetCursor<'s, K, R> {
    pub valid: bool,
    pub cursor: ColumnLayerCursor<'s, K, R>,
}

impl<'s, K: Ord + Clone, R: MonoidValue> OrdZSetCursor<'s, K, R> {
    /// The cursor below is well formed.
    pub open spec fn wf(&self) -> bool {
        self.cursor.wf()
    }

    /// Whether the cursor stands on a key.
    pub fn key_valid(&self) -> (b: bool)
        ensures
            b == (self.cursor.pos < self.cursor.bounds.1),
    {
        self.cursor.valid()
    }

    /// Whether the cursor stands on the value of its key.
    pub fn val_valid(&self) -> (b: bool)
        ensures
            b == self.valid,
    {
        self.valid
    }

    /// The key under the cursor.
    pub fn key(&self) -> (key: &'s K)
        requires
            self.wf(),
            self.cursor.pos < self.cursor.bounds.1,
        ensures
            *key == self.cursor.storage.keys@[self.cursor.pos as int],
    {
        self.cursor.current_key()
    }

    /// The value under the cursor.
    pub fn val(&self) -> (val: &'static ())
        ensures
            *val == (),
    {
        &()
    }

    /// The weight of the key under the cursor.
    pub fn weight(&self) -> (weight: R)
        requires
            self.wf(),
            self.cursor.pos < self.cursor.bounds.1,
        ensures
            weight == self.cursor.storage.diffs@[self.cursor.pos as int],
    {
        clone_weight(self.cursor.current_diff())
    }

    /// Moves to the next key and onto its value.
    pub fn step_key(&mut self)
        requires
            old(self).wf(),
        ensures
            final(self).wf(),
            final(self).valid,
            final(self).cursor.storage == old(self).cursor.storage,
            final(self).cursor.bounds == old(self).cursor.bounds,
            old(self).cursor.pos < old(self).cursor.bounds.1 ==> final(self).cursor.pos == old(self).cursor.pos + 1,
            old(self).cursor.pos >= old(self).cursor.bounds.1 ==> final(self).cursor.pos == old(self).cursor.pos,
    {
        self.cursor.step();
        self.valid = true;
    }

    /// Moves off the value of the key: a key has one value.
    pub fn step_val(&mut self)
        ensures
            final(self).cursor == old(self).cursor,
            !final(self).valid,
    {
        self.valid = false;
    }

    /// Moves back to the first key, and onto its value.
    pub fn rewind_keys(&mut self)
        requires
            old(self).wf(),
        ensures
            final(self).wf(),
            final(self).valid,
            final(self).cursor.storage == old(self).cursor.storage,
            final(self).cursor.bounds == old(self).cursor.bounds,
            final(self).cursor.pos == old(self).cursor.bounds.0,
    {
        self.cursor.rewind();
        self.valid = true;
    }
}

impl<K: Ord + Clone, R: GroupValue> NegByRef for OrdZSet<K, R> {
    open spec fn neg_model(a: spec_fn(K) -> R) -> spec_fn(K) -> R {
        negated_weights(a)
    }

    proof fn lemma_add_model_neg(a: spec_fn(K) -> R) {
        assert forall|k: K| #[trigger]
            added_weights(a, negated_weights(a))(k) == zero_weights::<K, R>()(k) by {
            R::lemma_add_neg(a(k));
        }
        assert(added_weights(a, negated_weights(a)) =~= zero_weights::<K, R>());
    }

    fn neg_by_ref(&self) -> (opposite: Self) {
        let opposite = OrdZSet { layer: self.layer.neg_by_ref() };
        proof {
            lemma_consolidated_negated(self.layer.entries(), opposite.layer.entries());
            assert forall|k: K| #[trigger]
                weight_of(opposite.layer.entries(), k) == weight_of(
                    self.layer.entries(),
                    k,
                ).neg_spec() by {
                lemma_weight_negated(self.layer.entries(), opposite.layer.entries(), k);
            }
            assert(opposite.weights() =~= negated_weights(self.weights()));
        }
        opposite
    }

    fn neg(self) -> (opposite: Self) {
        let opposite = OrdZSet { layer: self.layer.neg() };
        proof {
            lemma_consolidated_negated(self.layer.entries(), opposite.layer.entries());
            assert forall|k: K| #[trigger]
                weight_of(opposite.layer.entries(), k) == weight_of(
                    self.layer.entries(),
                    k,
                ).neg_spec() by {
                lemma_weight_negated(self.layer.entries(), opposite.layer.entries(), k);
            }
            assert(opposite.weights() =~= negated_weights(self.weights()));
        }
        opposite
    }
}

} // verus!
