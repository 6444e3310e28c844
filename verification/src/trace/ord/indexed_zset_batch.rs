//! Indexed Z-sets: untimed batches of keys, each with values that carry
//! weights.

use vstd::prelude::*;
use crate::algebra::AddByRef;
use crate::algebra::GroupValue;
use crate::algebra::HasZero;
use crate::algebra::MonoidValue;
use crate::algebra::NegByRef;
use crate::algebra::NumEntries;
use crate::algebra::clone_weight;
use crate::order::duplicate_all;
use crate::order::faithful_clone;
use crate::order::key_le;
use crate::order::key_lt;
use crate::order::lawful;
use crate::trace::layers::column_layer::ColumnLayer;
use crate::trace::layers::column_layer::ColumnLayerBuilder;
use crate::trace::layers::ordered::OrderedBuilder;
use crate::trace::layers::ordered::OrderedCursor;
use crate::trace::layers::ordered::OrderedLayer;
use crate::trace::layers::ordered::UnorderedBuilder;
use crate::trace::layers::ordered::span;
use crate::trace::layers::ordered::tuple_share;
use crate::zset::consolidated;
use crate::zset::weight_of;
use crate::zset::lemma_weight_at;

verus! {

/// An indexed Z-set: each key with its values and their weights, sorted
/// by key and by value, no weight zero.
#[derive(Debug, Clone, PartialEq, Eq)]
pub struct OrdIndexedZSet<K, V, R> {
    pub layer: OrderedLayer<K, ColumnLayer<V, R>>,
}

/// The indexed Z-set in which every tuple has weight zero.
pub open spec fn zero_indexed<K, V, R: MonoidValue>() -> spec_fn(K, V) -> R {
    |k: K, v: V| R::zero_spec()
}

/// The indexed Z-set in which every tuple has the sum of its weights in
/// `a` and `b`.
pub open spec fn added_indexed<K, V, R: MonoidValue>(
    a: spec_fn(K, V) -> R,
    b: spec_fn(K, V) -> R,
) -> spec_fn(K, V) -> R {
    |k: K, v: V| a(k, v).add_spec(b(k, v))
}

/// The indexed Z-set in which every tuple has the opposite of its weight
/// in `a`.
pub open spec fn negated_indexed<K, V, R: GroupValue>(a: spec_fn(K, V) -> R) -> spec_fn(K, V) -> R {
    |k: K, v: V| a(k, v).neg_spec()
}

impl<K: Ord + Clone, V: Ord + Clone, R: MonoidValue> OrdIndexedZSet<K, V, R> {
    /// The weight of the tuple `(key, val)`.
    pub open spec fn weight(&self, key: K, val: V) -> R {
        self.layer.weight(key, val)
    }

    /// The indexed Z-set as a function from tuples to weights.
    pub open spec fn weights(&self) -> spec_fn(K, V) -> R {
        |k: K, v: V| self.layer.weight(k, v)
    }

    /// The layer is a well-formed trie.
    pub open spec fn valid(&self) -> bool {
        self.layer.wf()
    }

    /// The number of keys.
    pub fn key_count(&self) -> (n: usize)
        ensures
            n == self.layer.keys@.len(),
    {
        self.layer.keys()
    }

    /// The number of tuples.
    pub fn len(&self) -> (n: usize)
        ensures
            n == self.layer.vals.keys@.len(),
    {
        self.layer.vals.keys.len()
    }

    /// Whether the indexed Z-set holds no key.
    pub fn is_empty(&self) -> (b: bool)
        ensures
            b == (self.layer.keys@.len() == 0),
    {
        self.layer.is_empty()
    }

    /// The indexed Z-set without keys.
    pub fn empty() -> (zset: Self)
        ensures
            zset.valid(),
            zset.layer.keys@.len() == 0,
            zset.weights() == zero_indexed::<K, V, R>(),
    {
        let zset = OrdIndexedZSet { layer: OrderedLayer::empty() };
        proof {
            assert(zset.weights() =~= zero_indexed::<K, V, R>());
        }
        zset
    }

    /// The indexed Z-set of `tuples`: each tuple has the sum of the
    /// weights it occurs with, and those whose sum is zero are not in it.
    pub fn from_tuples(_time: (), tuples: Vec<((K, V), R)>) -> (zset: Self)
        requires
            lawful::<K>(),
            lawful::<V>(),
        ensures
            zset.valid(),
            forall|k: K, v: V| #[trigger] zset.weight(k, v) == weight_of(tuples@, (k, v)),
    {
        let builder = UnorderedBuilder { vals: tuples };
        OrdIndexedZSet { layer: builder.done() }
    }

    /// The union of two indexed Z-sets: each tuple has the sum of its
    /// weights in the two.
    pub fn merge(&self, other: &Self) -> (merged: Self)
        requires
            self.valid(),
            other.valid(),
            lawful::<K>(),
            lawful::<V>(),
            faithful_clone::<K>(),
            faithful_clone::<V>(),
        ensures
            merged.valid(),
            merged.weights() == added_indexed(self.weights(), other.weights()),
    {
        let merged = OrdIndexedZSet { layer: self.layer.merge(&other.layer) };
        proof {
            assert(merged.weights() =~= added_indexed(self.weights(), other.weights()));
        }
        merged
    }

    /// A copy of the indexed Z-set.
    pub fn copy(&self) -> (copy: Self)
        requires
            self.valid(),
            faithful_clone::<K>(),
            faithful_clone::<V>(),
        ensures
            copy.valid(),
            copy.layer.keys@ == self.layer.keys@,
            copy.layer.offs@ == self.layer.offs@,
            copy.layer.vals.entries() == self.layer.vals.entries(),
            copy.weights() == self.weights(),
    {
        let copy = OrdIndexedZSet {
            layer: OrderedLayer {
                keys: duplicate_all(&self.layer.keys),
                offs: duplicate_all(&self.layer.offs),
                vals: self.layer.vals.copy(),
            },
        };
        proof {
            assert forall|k: K, v: V| #[trigger] copy.weight(k, v) == self.weight(k, v) by {
                assert(copy.layer.level(v) =~= self.layer.level(v));
            }
            assert(copy.weights() =~= self.weights());
        }
        copy
    }

    /// An indexed Z-set without keys is one in which every weight is zero.
    pub proof fn lemma_empty_is_zero(&self)
        requires
            self.valid(),
            lawful::<K>(),
            lawful::<V>(),
        ensures
            self.layer.keys@.len() == 0 <==> self.weights() == zero_indexed::<K, V, R>(),
    {
        if self.layer.keys@.len() == 0 {
            assert forall|k: K, v: V| #[trigger] self.weight(k, v) == R::zero_spec() by {
                assert(self.layer.level(v) =~= Seq::<(K, R)>::empty());
            }
            assert(self.weights() =~= zero_indexed::<K, V, R>());
        } else {
            let key = self.layer.keys@[0];
            let run = span(self.layer.offs@, self.layer.vals.entries(), 0);
            assert(consolidated(run));
            assert(self.layer.offs@[0] < self.layer.offs@[1]);
            let val = run[0].0;
            lemma_weight_at(run, 0);
            let level = self.layer.level(val);
            assert forall|i: int, j: int| 0 <= i < j < level.len() implies key_lt(
                level[i].0,
                level[j].0,
            ) by {
                assert(key_lt(self.layer.keys@[i], self.layer.keys@[j]));
            }
            lemma_weight_at(level, 0);
            assert(self.weight(key, val) == run[0].1);
            assert(self.weights()(key, val) != zero_indexed::<K, V, R>()(key, val));
        }
    }

    /// A cursor over the keys, placed on the first key and its first
    /// value.
    pub fn cursor(&self) -> (cursor: OrdIndexedZSetCursor<'_, K, V, R>)
        requires
            self.valid(),
        ensures
            cursor.wf(),
            cursor.cursor.storage == &self.layer,
            cursor.cursor.pos == 0,
            cursor.cursor.bounds.0 == 0,
            cursor.cursor.bounds.1 == self.layer.keys@.len(),
            self.layer.keys@.len() > 0 ==> cursor.cursor.child.pos == self.layer.offs@[0],
    {
        OrdIndexedZSetCursor { cursor: self.layer.cursor() }
    }
}

/// A cursor over the keys of an indexed Z-set and, under each key, over
/// its values.
pub struct OrdIndexedZSetCursor<'s, K, V, R> {
    pub cursor: OrderedCursor<'s, K, V, R>,
}

impl<'s, K: Ord + Clone, V: Ord + Clone, R: MonoidValue> OrdIndexedZSetCursor<'s, K, V, R> {
    /// The cursor below is well formed.
    pub open spec fn wf(&self) -> bool {
        self.cursor.wf()
    }

    /// Whether the cursor stands on a key.
    pub fn key_valid(&self) -> (b: bool)
        ensures
            b == (self.cursor.pos < self.cursor.bounds.1),
    {
        self.cursor.valid()
    }

    /// Whether the cursor stands on a value of its key.
    pub fn val_valid(&self) -> (b: bool)
        ensures
            b == (self.cursor.child.pos < self.cursor.child.bounds.1),
    {
        self.cursor.child.valid()
    }

    /// The key under the cursor.
    pub fn key(&self) -> (key: &'s K)
        requires
            self.wf(),
            self.cursor.pos < self.cursor.bounds.1,
        ensures
            *key == self.cursor.storage.keys@[self.cursor.pos as int],
    {
        self.cursor.key()
    }

    /// The value under the cursor.
    pub fn val(&self) -> (val: &'s V)
        requires
            self.wf(),
            self.cursor.child.pos < self.cursor.child.bounds.1,
        ensures
            *val == self.cursor.child.storage.keys@[self.cursor.child.pos as int],
    {
        self.cursor.child.current_key()
    }

    /// The weight of the tuple under the cursor.
    pub fn weight(&self) -> (weight: R)
        requires
            self.wf(),
            self.cursor.child.pos < self.cursor.child.bounds.1,
        ensures
            weight == self.cursor.child.storage.diffs@[self.cursor.child.pos as int],
    {
        clone_weight(self.cursor.child.current_diff())
    }

    /// Moves to the next key and onto its first value.
    pub fn step_key(&mut self)
        requires
            old(self).wf(),
        ensures
            final(self).wf(),
            final(self).cursor.storage == old(self).cursor.storage,
            final(self).cursor.bounds == old(self).cursor.bounds,
            old(self).cursor.pos < old(self).cursor.bounds.1 ==> final(self).cursor.pos == old(self).cursor.pos + 1,
            old(self).cursor.pos >= old(self).cursor.bounds.1 ==> final(self).cursor.pos == old(self).cursor.pos,
            final(self).cursor.pos < final(self).cursor.bounds.1 ==> final(self).cursor.child.pos
                == final(self).cursor.storage.offs@[final(self).cursor.pos as int],
    {
        self.cursor.step();
    }

    /// Moves to the next value of the key.
    pub fn step_val(&mut self)
        requires
            old(self).wf(),
        ensures
            final(self).wf(),
            final(self).cursor.storage == old(self).cursor.storage,
            final(self).cursor.bounds == old(self).cursor.bounds,
            final(self).cursor.pos == old(self).cursor.pos,
            final(self).cursor.child.bounds == old(self).cursor.child.bounds,
            old(self).cursor.child.pos < old(self).cursor.child.bounds.1 ==> final(self).cursor.child.pos == old(self).cursor.child.pos + 1,
            old(self).cursor.child.pos >= old(self).cursor.child.bounds.1 ==> final(self).cursor.child.pos == old(self).cursor.child.pos,
    {
        self.cursor.child.step();
    }
}

impl<K: Ord + Clone, V: Ord + Clone, R: MonoidValue> NumEntries for OrdIndexedZSet<K, V, R> {
    open spec fn entries_shallow(&self) -> nat {
        self.layer.keys@.len()
    }

    open spec fn entries_deep(&self) -> nat {
        self.layer.vals.keys@.len()
    }

    fn num_entries_shallow(&self) -> (n: usize) {
        self.layer.keys.len()
    }

    fn num_entries_deep(&self) -> (n: usize) {
        self.layer.vals.keys.len()
    }
}

impl<K: Ord + Clone, V: Ord + Clone, R: MonoidValue> HasZero for OrdIndexedZSet<K, V, R> {
    type Model = spec_fn(K, V) -> R;

    open spec fn usable() -> bool {
        lawful::<K>() && lawful::<V>() && faithful_clone::<K>() && faithful_clone::<V>()
    }

    open spec fn wf(&self) -> bool {
        self.valid()
    }

    open spec fn model(&self) -> spec_fn(K, V) -> R {
        self.weights()
    }

    open spec fn zero_model() -> spec_fn(K, V) -> R {
        zero_indexed::<K, V, R>()
    }

    fn zero() -> (z: Self) {
        Self::empty()
    }

    fn is_zero(&self) -> (b: bool) {
        proof {
            self.lemma_empty_is_zero();
        }
        self.is_empty()
    }

    fn duplicate(&self) -> (copy: Self) {
        self.copy()
    }
}

impl<K: Ord + Clone, V: Ord + Clone, R: MonoidValue> AddByRef for OrdIndexedZSet<K, V, R> {
    open spec fn add_model(a: spec_fn(K, V) -> R, b: spec_fn(K, V) -> R) -> spec_fn(K, V) -> R {
        added_indexed(a, b)
    }

    proof fn lemma_add_model_commutative(a: spec_fn(K, V) -> R, b: spec_fn(K, V) -> R) {
        assert forall|k: K, v: V| #[trigger]
            added_indexed(a, b)(k, v) == added_indexed(b, a)(k, v) by {
            R::lemma_add_commutative(a(k, v), b(k, v));
        }
        assert(added_indexed(a, b) =~= added_indexed(b, a));
    }

    proof fn lemma_add_model_associative(
        a: spec_fn(K, V) -> R,
        b: spec_fn(K, V) -> R,
        c: spec_fn(K, V) -> R,
    ) {
        assert forall|k: K, v: V| #[trigger]
            added_indexed(added_indexed(a, b), c)(k, v) == added_indexed(a, added_indexed(b, c))(
                k,
                v,
            ) by {
            R::lemma_add_associative(a(k, v), b(k, v), c(k, v));
        }
        assert(added_indexed(added_indexed(a, b), c) =~= added_indexed(a, added_indexed(b, c)));
    }

    proof fn lemma_add_model_zero(a: spec_fn(K, V) -> R) {
        assert forall|k: K, v: V| #[trigger]
            added_indexed(a, zero_indexed::<K, V, R>())(k, v) == a(k, v) by {
            R::lemma_add_zero(a(k, v));
        }
        assert(added_indexed(a, zero_indexed::<K, V, R>()) =~= a);
    }

    fn add_by_ref(&self, other: &Self) -> (sum: Self) {
        self.merge(other)
    }

    fn add_assign_by_ref(&mut self, other: &Self) {
        if !other.is_empty() {
            *self = self.merge(other);
        } else {
            proof {
                other.lemma_empty_is_zero();
                Self::lemma_add_model_zero(self.weights());
            }
        }
    }

    fn plus(self, other: Self) -> (sum: Self) {
        if self.is_empty() {
            proof {
                self.lemma_empty_is_zero();
                Self::lemma_add_model_zero(other.weights());
                Self::lemma_add_model_commutative(self.weights(), other.weights());
            }
            other
        } else if other.is_empty() {
            proof {
                other.lemma_empty_is_zero();
                Self::lemma_add_model_zero(self.weights());
            }
            self
        } else {
            self.merge(&other)
        }
    }
}

impl<K: Ord + Clone, V: Ord + Clone, R: GroupValue> NegByRef for OrdIndexedZSet<K, V, R> {
    open spec fn neg_model(a: spec_fn(K, V) -> R) -> spec_fn(K, V) -> R {
        negated_indexed(a)
    }

    proof fn lemma_add_model_neg(a: spec_fn(K, V) -> R) {
        assert forall|k: K, v: V| #[trigger]
            added_indexed(a, negated_indexed(a))(k, v) == zero_indexed::<K, V, R>()(k, v) by {
            R::lemma_add_neg(a(k, v));
        }
        assert(added_indexed(a, negated_indexed(a)) =~= zero_indexed::<K, V, R>());
    }

    fn neg_by_ref(&self) -> (opposite: Self) {
        let opposite = OrdIndexedZSet { layer: self.layer.neg_by_ref() };
        proof {
            assert(opposite.weights() =~= negated_indexed(self.weights()));
        }
        opposite
    }

    fn neg(self) -> (opposite: Self) {
        let opposite = OrdIndexedZSet { layer: self.layer.neg() };
        proof {
            assert(opposite.weights() =~= negated_indexed(self.weights()));
        }
        opposite
    }
}

/// A builder of an indexed Z-set from tuples that arrive in order.
pub struct OrdIndexedZSetBuilder<K, V, R> {
    pub builder: OrderedBuilder<K, ColumnLayerBuilder<V, R>>,
}

impl<K: Ord + Clone, V: Ord + Clone, R: MonoidValue> OrdIndexedZSetBuilder<K, V, R> {
    /// The builder below is well formed.
    pub open spec fn wf(&self) -> bool {
        self.builder.wf()
    }

    /// The weight of the tuple `(key, val)` in what has been built.
    pub open spec fn weight(&self, key: K, val: V) -> R {
        self.builder.weight(key, val)
    }

    /// A builder that holds nothing.
    pub fn new_builder(_time: ()) -> (builder: Self)
        ensures
            builder.wf(),
            builder.builder.keys@.len() == 0,
            forall|k: K, v: V| #[trigger] builder.weight(k, v) == R::zero_spec(),
    {
        OrdIndexedZSetBuilder { builder: OrderedBuilder::new() }
    }

    /// A builder that holds nothing, with room for `capacity` tuples.
    pub fn with_capacity(_time: (), capacity: usize) -> (builder: Self)
        ensures
            builder.wf(),
            builder.builder.keys@.len() == 0,
            forall|k: K, v: V| #[trigger] builder.weight(k, v) == R::zero_spec(),
    {
        OrdIndexedZSetBuilder { builder: OrderedBuilder::with_capacity(capacity) }
    }

    /// Adds the tuple `tuple.0` with the weight `tuple.1`. Tuples arrive
    /// in an order that does not decrease.
    pub fn push(&mut self, tuple: ((K, V), R))
        requires
            old(self).wf(),
            lawful::<K>(),
            lawful::<V>(),
            old(self).builder.accepts((tuple.0.0, (tuple.0.1, tuple.1))),
        ensures
            final(self).wf(),
            final(self).builder.is_open(),
            final(self).builder.keys@.last() == tuple.0.0,
            final(self).builder.vals.open().len() > 0 ==> key_le(
                final(self).builder.vals.open().last().0,
                tuple.0.1,
            ),
            forall|k: K, v: V| #[trigger]
                final(self).weight(k, v) == old(self).weight(k, v).add_spec(
                    tuple_share((tuple.0.0, (tuple.0.1, tuple.1)), k, v),
                ),
    {
        let ((key, val), diff) = tuple;
        self.builder.push_tuple((key, (val, diff)));
    }

    /// The indexed Z-set of what was pushed.
    pub fn done(self) -> (zset: OrdIndexedZSet<K, V, R>)
        requires
            self.wf(),
        ensures
            zset.valid(),
            forall|k: K, v: V| #[trigger] zset.weight(k, v) == self.weight(k, v),
    {
        OrdIndexedZSet { layer: self.builder.done() }
    }
}

} // verus!
