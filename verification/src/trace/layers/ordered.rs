//! A level of a trie: sorted keys, each with a range of the layer below.
//!
//! The values of `keys[i]` are the tuples of the layer below at the
//! positions `offs[i] .. offs[i + 1]`.

use vstd::prelude::*;
use crate::algebra::GroupValue;
use crate::algebra::MonoidValue;
use crate::order::duplicate;
use crate::order::faithful_clone;
use crate::order::key_le;
use crate::order::key_lt;
use crate::order::lawful;
use crate::order::less;
use crate::order::same;
use crate::order::strictly_increasing;
use crate::order::lemma_lt_total;
use crate::order::lemma_lt_transitive;
use crate::order::lemma_lt_irreflexive;
use crate::trace::layers::advance;
use crate::trace::layers::turns_at;
use crate::trace::layers::column_layer::ColumnLayer;
use crate::trace::layers::column_layer::ColumnLayerBuilder;
use crate::trace::layers::column_layer::ColumnLayerCursor;
use crate::trace::layers::column_layer::MERGE_STRIDE;
use crate::trace::layers::column_layer::stride;
use crate::zset::consolidated;
use crate::zset::share;
use crate::zset::weight_of;
use crate::zset::lemma_weight_absent;
use crate::zset::lemma_weight_at;
use crate::zset::lemma_weight_concat;
use crate::zset::lemma_weight_push;
use crate::zset::lemma_zero_add;
use crate::zset::lemma_consolidated_push;
use crate::zset::lemma_consolidated_unique;
use crate::zset::same_weights;
use crate::algebra::clone_weight;
use crate::zset::lemma_weight_permutation;
use crate::zset::lemma_weight_negated;
use crate::zset::lemma_consolidated_negated;
use crate::zset::negated;
use crate::order::lemma_pair_lt;
use crate::order::duplicate_all;
use crate::order::lemma_pairs_lawful;
use crate::order::lemma_le_transitive;
use crate::trace::consolidation::sort_by_key;
use crate::trace::consolidation::keys_sorted;

verus! {

/// A level of the trie, with keys and offsets into a lower layer.
#[derive(Debug, Clone, PartialEq, Eq)]
pub struct OrderedLayer<K, L> {
    /// The keys of the layer.
    pub keys: Vec<K>,
    /// The offsets of the keys: the values of `keys[i]` lie at
    /// `offs[i] .. offs[i + 1]` in `vals`. One longer than `keys`.
    pub offs: Vec<usize>,
    /// The values of all keys, range by range.
    pub vals: L,
}

impl<K, L> OrderedLayer<K, L> {
    /// Breaks the layer down into its keys, its offsets and the layer below.
    pub fn into_parts(self) -> (parts: (Vec<K>, Vec<usize>, L))
        ensures
            parts.0 == self.keys,
            parts.1 == self.offs,
            parts.2 == self.vals,
    {
        (self.keys, self.offs, self.vals)
    }

    /// Puts a layer together from its keys, its offsets and the layer
    /// below. There is one offset more than there are keys; whether the
    /// offsets fit the layer below is the caller's to know.
    pub fn from_parts(keys: Vec<K>, offs: Vec<usize>, vals: L) -> (layer: Self)
        requires
            keys@.len() + 1 == offs@.len(),
        ensures
            layer.keys == keys,
            layer.offs == offs,
            layer.vals == vals,
    {
        OrderedLayer { keys, offs, vals }
    }
}

/// The range of the layer below that belongs to key `i`.
pub open spec fn span<V, R>(offs: Seq<usize>, child: Seq<(V, R)>, i: int) -> Seq<(V, R)> {
    child.subrange(offs[i] as int, offs[i + 1] as int)
}

/// The sum of two runs of values: the one consolidated run in which
/// every value has the sum of its weights in the two.
pub open spec fn summed_run<V: Ord, R: MonoidValue>(a: Seq<(V, R)>, b: Seq<(V, R)>) -> Seq<(V, R)> {
    choose|sum: Seq<(V, R)>|
        consolidated(sum) && forall|v: V| #[trigger]
            weight_of(sum, v) == weight_of(a, v).add_spec(weight_of(b, v))
}

/// A consolidated run in which every value has the sum of its weights in
/// two runs is the sum of the two runs.
pub proof fn lemma_summed_run<V: Ord, R: MonoidValue>(a: Seq<(V, R)>, b: Seq<(V, R)>, sum: Seq<(V, R)>)
    requires
        lawful::<V>(),
        consolidated(sum),
        forall|v: V| #[trigger] weight_of(sum, v) == weight_of(a, v).add_spec(weight_of(b, v)),
    ensures
        summed_run(a, b) == sum,
{
    let chosen = summed_run(a, b);
    assert forall|v: V| #[trigger] weight_of(chosen, v) == weight_of(sum, v) by {
        assert(weight_of(chosen, v) == weight_of(a, v).add_spec(weight_of(b, v)));
    }
    lemma_consolidated_unique(chosen, sum);
}

/// The layer seen from one value: each key with the weight that the value
/// has under it.
pub open spec fn key_level<K, V, R: MonoidValue>(
    keys: Seq<K>,
    offs: Seq<usize>,
    child: Seq<(V, R)>,
    v: V,
) -> Seq<(K, R)> {
    Seq::new(keys.len(), |i: int| (keys[i], weight_of(span(offs, child, i), v)))
}

/// Keys, offsets and the layer below fit together: the offsets start at 0,
/// rise strictly and end at the length of the layer below; the keys rise
/// strictly; each key's range is consolidated.
pub open spec fn trie_wf<K: Ord, V: Ord, R: MonoidValue>(
    keys: Seq<K>,
    offs: Seq<usize>,
    child: Seq<(V, R)>,
) -> bool {
    &&& offs.len() == keys.len() + 1
    &&& offs[0] == 0
    &&& offs[keys.len() as int] == child.len()
    &&& forall|i: int, j: int| 0 <= i < j < offs.len() ==> offs[i] < offs[j]
    &&& strictly_increasing(keys)
    &&& forall|i: int| 0 <= i < keys.len() ==> consolidated(#[trigger] span(offs, child, i))
}

impl<K: Ord + Clone, V: Ord + Clone, R: MonoidValue> OrderedLayer<K, ColumnLayer<V, R>> {
    /// The layer is a well-formed trie.
    pub open spec fn wf(&self) -> bool {
        &&& self.vals.wf()
        &&& trie_wf(self.keys@, self.offs@, self.vals.entries())
    }

    /// The layer seen from the value `v`.
    pub open spec fn level(&self, v: V) -> Seq<(K, R)> {
        key_level(self.keys@, self.offs@, self.vals.entries(), v)
    }

    /// The weight of the tuple `(k, v)`.
    pub open spec fn weight(&self, k: K, v: V) -> R {
        weight_of(self.level(v), k)
    }

    /// The weight of `(k, v)` among the keys at the positions `lower..upper`.
    pub open spec fn span_weight(&self, lower: int, upper: int, k: K, v: V) -> R {
        weight_of(self.level(v).subrange(lower, upper), k)
    }

    /// A layer without keys.
    pub fn empty() -> (layer: Self)
        ensures
            layer.wf(),
            layer.keys@.len() == 0,
            forall|k: K, v: V| #[trigger] layer.weight(k, v) == R::zero_spec(),
    {
        let mut offs: Vec<usize> = Vec::new();
        offs.push(0);
        let layer = OrderedLayer { keys: Vec::new(), offs, vals: ColumnLayer::empty() };
        proof {
            assert forall|k: K, v: V| #[trigger] layer.weight(k, v) == R::zero_spec() by {
                assert(layer.level(v) =~= Seq::<(K, R)>::empty());
            }
        }
        layer
    }

    /// The number of keys.
    pub fn keys(&self) -> (n: usize)
        ensures
            n == self.keys@.len(),
    {
        self.keys.len()
    }

    /// The number of tuples.
    pub fn tuples(&self) -> (n: usize)
        requires
            self.wf(),
        ensures
            n == self.vals.entries().len(),
    {
        self.vals.tuples()
    }

    /// Whether the layer holds no key.
    pub fn is_empty(&self) -> (b: bool)
        ensures
            b == (self.keys@.len() == 0),
    {
        self.keys.len() == 0
    }

    /// A cursor over the keys at `lower..upper`, placed on the first of
    /// them. Where `lower >= upper`, the cursor is empty.
    pub fn cursor_from(&self, lower: usize, upper: usize) -> (cursor: OrderedCursor<'_, K, V, R>)
        requires
            self.wf(),
            upper <= self.keys@.len(),
        ensures
            cursor.wf(),
            cursor.storage == self,
            lower < upper ==> cursor.pos == lower && cursor.bounds == (lower, upper)
                && cursor.child.pos == self.offs@[lower as int],
            lower >= upper ==> cursor.pos == 0 && cursor.bounds == (0usize, 0usize),
    {
        if lower < upper {
            let child_lower = self.offs[lower];
            let child_upper = self.offs[lower + 1];
            OrderedCursor {
                bounds: (lower, upper),
                storage: self,
                child: self.vals.cursor_from(child_lower, child_upper),
                pos: lower,
            }
        } else {
            OrderedCursor {
                bounds: (0, 0),
                storage: self,
                child: self.vals.cursor_from(0, 0),
                pos: 0,
            }
        }
    }

    /// A cursor over all keys.
    pub fn cursor(&self) -> (cursor: OrderedCursor<'_, K, V, R>)
        requires
            self.wf(),
        ensures
            cursor.wf(),
            cursor.storage == self,
            cursor.pos == 0,
            cursor.bounds.0 == 0,
            cursor.bounds.1 == self.keys@.len(),
            self.keys@.len() > 0 ==> cursor.child.pos == self.offs@[0],
    {
        self.cursor_from(0, self.keys.len())
    }
}

/// A cursor over the keys of an ordered layer, with a cursor over the
/// values of the key it stands on.
pub struct OrderedCursor<'s, K, V, R> {
    pub storage: &'s OrderedLayer<K, ColumnLayer<V, R>>,
    pub pos: usize,
    pub bounds: (usize, usize),
    /// The cursor for the trie layer below this one.
    pub child: ColumnLayerCursor<'s, V, R>,
}

impl<'s, K: Ord + Clone, V: Ord + Clone, R: MonoidValue> OrderedCursor<'s, K, V, R> {
    /// The cursor stands inside its range or at its end; where it stands
    /// on a key, the cursor below covers the values of that key.
    pub open spec fn wf(&self) -> bool {
        &&& self.storage.wf()
        &&& self.bounds.0 <= self.pos <= self.bounds.1 <= self.storage.keys@.len()
        &&& self.child.wf()
        &&& self.child.storage == &self.storage.vals
        &&& self.pos < self.bounds.1 ==> self.child.bounds == (
            self.storage.offs@[self.pos as int],
            self.storage.offs@[self.pos + 1],
        )
    }

    /// Places the cursor below on the values of the key under the cursor.
    fn enter(&mut self)
        requires
            old(self).storage.wf(),
            old(self).bounds.0 <= old(self).pos <= old(self).bounds.1 <= old(self).storage.keys@.len(),
            old(self).child.storage == &old(self).storage.vals,
            old(self).pos >= old(self).bounds.1 ==> old(self).child.wf(),
        ensures
            final(self).wf(),
            final(self).storage == old(self).storage,
            final(self).pos == old(self).pos,
            final(self).bounds == old(self).bounds,
            final(self).pos < final(self).bounds.1 ==> final(self).child.pos
                == final(self).storage.offs@[final(self).pos as int],
    {
        if self.pos < self.bounds.1 {
            self.child.reposition(self.storage.offs[self.pos], self.storage.offs[self.pos + 1]);
        }
    }

    /// Another cursor over the same layer, at the same place.
    pub fn copy(&self) -> (cursor: Self)
        ensures
            cursor == *self,
    {
        OrderedCursor {
            storage: self.storage,
            pos: self.pos,
            bounds: self.bounds,
            child: self.child.copy(),
        }
    }

    /// The number of keys in the cursor's range.
    pub fn keys(&self) -> (n: usize)
        requires
            self.wf(),
        ensures
            n == self.bounds.1 - self.bounds.0,
    {
        self.bounds.1 - self.bounds.0
    }

    /// Whether the cursor stands on a key.
    pub fn valid(&self) -> (b: bool)
        ensures
            b == (self.pos < self.bounds.1),
    {
        self.pos < self.bounds.1
    }

    /// The key under the cursor.
    pub fn key(&self) -> (key: &'s K)
        requires
            self.wf(),
            self.pos < self.bounds.1,
        ensures
            *key == self.storage.keys@[self.pos as int],
    {
        &self.storage.keys[self.pos]
    }

    /// A fresh cursor over the values of the key under the cursor; an
    /// empty one where the cursor stands on no key.
    pub fn values(&self) -> (values: ColumnLayerCursor<'s, V, R>)
        requires
            self.wf(),
        ensures
            values.wf(),
            values.storage == &self.storage.vals,
            self.pos < self.bounds.1 ==> values.pos == self.storage.offs@[self.pos as int]
                && values.bounds == (
                self.storage.offs@[self.pos as int],
                self.storage.offs@[self.pos + 1],
            ),
            self.pos >= self.bounds.1 ==> values.bounds == (0usize, 0usize),
    {
        if self.pos < self.bounds.1 {
            self.storage.vals.cursor_from(
                self.storage.offs[self.pos],
                self.storage.offs[self.pos + 1],
            )
        } else {
            self.storage.vals.cursor_from(0, 0)
        }
    }

    /// Moves to the next key, or to the end of the range.
    pub fn step(&mut self)
        requires
            old(self).wf(),
        ensures
            final(self).wf(),
            final(self).storage == old(self).storage,
            final(self).bounds == old(self).bounds,
            old(self).pos < old(self).bounds.1 ==> final(self).pos == old(self).pos + 1,
            old(self).pos >= old(self).bounds.1 ==> final(self).pos == old(self).pos,
            final(self).pos < final(self).bounds.1 ==> final(self).child.pos
                == final(self).storage.offs@[final(self).pos as int],
    {
        if self.pos < self.bounds.1 {
            self.pos += 1;
        }
        self.enter();
    }

    /// Moves forward over the keys for which `predicate` holds, by
    /// galloping search: to a key at which `predicate` fails while it held
    /// at the key before, or to the end of the range.
    pub fn seek_with<P: Fn(&K) -> bool>(&mut self, predicate: P)
        requires
            old(self).wf(),
            forall|i: int|
                old(self).pos <= i < old(self).bounds.1 ==> call_requires(
                    predicate,
                    (&old(self).storage.keys@[i],),
                ),
        ensures
            final(self).wf(),
            final(self).storage == old(self).storage,
            final(self).bounds == old(self).bounds,
            old(self).pos <= final(self).pos,
            turns_at(
                predicate,
                old(self).storage.keys@.subrange(old(self).pos as int, old(self).bounds.1 as int),
                final(self).pos - old(self).pos,
            ),
            final(self).pos < final(self).bounds.1 ==> final(self).child.pos
                == final(self).storage.offs@[final(self).pos as int],
    {
        let rest = &self.storage.keys[self.pos..self.bounds.1];
        proof {
            assert forall|i: int| 0 <= i < rest@.len() implies call_requires(
                predicate,
                (&rest@[i],),
            ) by {
                assert(rest@[i] == self.storage.keys@[self.pos + i]);
            }
        }
        let n = advance(rest, predicate);
        self.pos += n;
        self.enter();
    }

    /// Moves forward to the first key that is not before `key`, or to the
    /// end of the range.
    pub fn seek(&mut self, key: &K)
        requires
            old(self).wf(),
            lawful::<K>(),
        ensures
            final(self).wf(),
            final(self).storage == old(self).storage,
            final(self).bounds == old(self).bounds,
            old(self).pos <= final(self).pos,
            forall|i: int|
                old(self).pos <= i < final(self).pos ==> key_lt(
                    #[trigger] final(self).storage.keys@[i],
                    *key,
                ),
            forall|i: int|
                final(self).pos <= i < final(self).bounds.1 ==> !key_lt(
                    #[trigger] final(self).storage.keys@[i],
                    *key,
                ),
            final(self).pos < final(self).bounds.1 ==> final(self).child.pos
                == final(self).storage.offs@[final(self).pos as int],
    {
        let before = |k: &K| -> (r: bool)
            requires
                lawful::<K>(),
            ensures
                r == key_lt(*k, *key),
            { less(k, key) };
        let ghost start = self.pos as int;
        let ghost keys = self.storage.keys@;
        let ghost rest = keys.subrange(self.pos as int, self.bounds.1 as int);
        self.seek_with(before);
        proof {
            let n = self.pos - start;
            assert forall|i: int| start <= i < start + n implies key_lt(#[trigger] keys[i], *key) by {
                assert(rest[n - 1] == keys[start + n - 1]);
                if i < start + n - 1 {
                    assert(key_lt(keys[i], keys[start + n - 1]));
                    lemma_lt_transitive(keys[i], keys[start + n - 1], *key);
                }
            }
            assert forall|i: int| start + n <= i < self.bounds.1 implies !key_lt(
                #[trigger] keys[i],
                *key,
            ) by {
                assert(rest[n] == keys[start + n]);
                if i > start + n {
                    assert(key_lt(keys[start + n], keys[i]));
                    if key_lt(keys[i], *key) {
                        lemma_lt_transitive(keys[start + n], keys[i], *key);
                    }
                }
            }
        }
    }

    /// The last key of the range, if the range is not empty.
    pub fn last_key(&self) -> (last: Option<&'s K>)
        requires
            self.wf(),
        ensures
            self.bounds.1 > self.bounds.0 ==> last == Some(&self.storage.keys@[self.bounds.1 - 1]),
            self.bounds.1 <= self.bounds.0 ==> last.is_none(),
    {
        if self.bounds.1 > self.bounds.0 {
            Some(&self.storage.keys[self.bounds.1 - 1])
        } else {
            None
        }
    }

    /// Moves back to the first key of the range.
    pub fn rewind(&mut self)
        requires
            old(self).wf(),
        ensures
            final(self).wf(),
            final(self).storage == old(self).storage,
            final(self).bounds == old(self).bounds,
            final(self).pos == old(self).bounds.0,
            final(self).pos < final(self).bounds.1 ==> final(self).child.pos
                == final(self).storage.offs@[final(self).pos as int],
    {
        self.pos = self.bounds.0;
        self.enter();
    }

    /// Gives the cursor another range of the same layer and places it on
    /// the first key of that range.
    pub fn reposition(&mut self, lower: usize, upper: usize)
        requires
            old(self).wf(),
            lower <= upper <= old(self).storage.keys@.len(),
        ensures
            final(self).wf(),
            final(self).storage == old(self).storage,
            final(self).bounds == (lower, upper),
            final(self).pos == lower,
            final(self).pos < final(self).bounds.1 ==> final(self).child.pos
                == final(self).storage.offs@[final(self).pos as int],
    {
        self.pos = lower;
        self.bounds = (lower, upper);
        self.enter();
    }
}

/// What the tuple `(key, (val, diff))` adds to the weight of `(k, v)`.
pub open spec fn tuple_share<K, V, R: MonoidValue>(tuple: (K, (V, R)), k: K, v: V) -> R {
    if tuple.0 == k {
        share(tuple.1, v)
    } else {
        R::zero_spec()
    }
}

/// Replacing the weight `w` of the last pair by `w + s` adds `s` to the
/// weight of its key and nothing to the others.
proof fn lemma_weight_last_grows<K, R: MonoidValue>(
    front: Seq<(K, R)>,
    key: K,
    w: R,
    s: R,
    k: K,
)
    ensures
        weight_of(front.push((key, w.add_spec(s))), k) == weight_of(front.push((key, w)), k).add_spec(
            share((key, s), k),
        ),
{
    lemma_weight_push(front, (key, w.add_spec(s)), k);
    lemma_weight_push(front, (key, w), k);
    if k == key {
        R::lemma_add_associative(weight_of(front, k), w, s);
    } else {
        R::lemma_add_zero(weight_of(front, k).add_spec(R::zero_spec()));
    }
}

/// Assembles an ordered layer.
///
/// While tuples are pushed, the last key may be open: its offset
/// `offs[keys.len()]` is still 0, and its values are the open run of the
/// builder below.
pub struct OrderedBuilder<K, L> {
    /// Keys
    pub keys: Vec<K>,
    /// Offsets
    pub offs: Vec<usize>,
    /// The next layer down
    pub vals: L,
}

impl<K: Ord + Clone, V: Ord + Clone, R: MonoidValue> OrderedBuilder<K, ColumnLayerBuilder<V, R>> {
    /// The last key still takes values.
    pub open spec fn is_open(&self) -> bool {
        self.keys@.len() > 0 && self.offs@[self.keys@.len() as int] == 0
    }

    /// The number of keys that take no more values.
    pub open spec fn closed_keys(&self) -> int {
        if self.is_open() {
            self.keys@.len() - 1
        } else {
            self.keys@.len() as int
        }
    }

    /// The offsets as they would stand if the open key were closed now.
    pub open spec fn bounds(&self) -> Seq<usize> {
        if self.is_open() {
            self.offs@.update(self.keys@.len() as int, self.vals.keys.len())
        } else {
            self.offs@
        }
    }

    /// The closed keys form a well-formed trie over the closed tuples of
    /// the builder below, and the open key, if there is one, owns its open
    /// run.
    pub open spec fn wf(&self) -> bool {
        &&& self.vals.wf()
        &&& self.offs@.len() == self.keys@.len() + 1
        &&& self.offs@[0] == 0
        &&& strictly_increasing(self.keys@)
        &&& forall|i: int, j: int|
            0 <= i < j <= self.closed_keys() ==> self.offs@[i] < self.offs@[j]
        &&& forall|i: int|
            0 <= i < self.closed_keys() ==> consolidated(
                #[trigger] span(self.offs@, self.vals.entries(), i),
            )
        &&& self.offs@[self.closed_keys()] == self.vals.sealed
        &&& !self.is_open() ==> self.vals.sealed == self.vals.entries().len()
    }

    /// What has been built, seen from the value `v`.
    pub open spec fn level(&self, v: V) -> Seq<(K, R)> {
        key_level(self.keys@, self.bounds(), self.vals.entries(), v)
    }

    /// The weight of the tuple `(k, v)` in what has been built.
    pub open spec fn weight(&self, k: K, v: V) -> R {
        weight_of(self.level(v), k)
    }

    /// A builder that holds nothing.
    pub fn new() -> (builder: Self)
        ensures
            builder.wf(),
            builder.keys@.len() == 0,
            forall|k: K, v: V| #[trigger] builder.weight(k, v) == R::zero_spec(),
    {
        Self::with_capacity(0)
    }

    /// A builder that holds nothing, with room for `capacity` keys. The
    /// capacity is a hint to the allocator: the builder is the empty
    /// builder whatever it is.
    pub fn with_capacity(capacity: usize) -> (builder: Self)
        ensures
            builder.wf(),
            builder.keys@.len() == 0,
            forall|k: K, v: V| #[trigger] builder.weight(k, v) == R::zero_spec(),
    {
        let mut offs: Vec<usize> = Vec::new();
        offs.push(0);
        let builder = OrderedBuilder {
            keys: Vec::with_capacity(capacity),
            offs,
            vals: ColumnLayerBuilder::with_capacity(capacity),
        };
        proof {
            assert(builder.vals.open() =~= Seq::<(V, R)>::empty());
            assert forall|k: K, v: V| #[trigger] builder.weight(k, v) == R::zero_spec() by {
                assert(builder.level(v) =~= Seq::<(K, R)>::empty());
            }
        }
        builder
    }

    /// A builder that holds nothing, with room for `capacity` keys. The
    /// capacity is a hint to the allocator.
    pub fn with_key_capacity(capacity: usize) -> (builder: Self)
        ensures
            builder.wf(),
            builder.keys@.len() == 0,
            forall|k: K, v: V| #[trigger] builder.weight(k, v) == R::zero_spec(),
    {
        Self::with_capacity(capacity)
    }

    /// The number of tuples held.
    pub fn tuples(&self) -> (n: usize)
        ensures
            n == self.vals.keys@.len(),
    {
        self.vals.tuples()
    }

    /// Closes the open key: writes its offset, or drops the key if it has
    /// no values left.
    fn close_key(&mut self)
        requires
            old(self).wf(),
            old(self).is_open(),
        ensures
            final(self).wf(),
            !final(self).is_open(),
            final(self).vals.entries() == old(self).vals.entries(),
            final(self).vals.keys@ == old(self).vals.keys@,
            final(self).vals.diffs@ == old(self).vals.diffs@,
            old(self).vals.open().len() == 0 ==> final(self).keys@ == old(self).keys@.drop_last(),
            old(self).vals.open().len() > 0 ==> final(self).keys@ == old(self).keys@,
            forall|k: K, v: V| #[trigger] final(self).weight(k, v) == old(self).weight(k, v),
    {
        let n = self.keys.len();
        let ghost child = self.vals.entries();
        let ghost run = self.vals.open();
        let ghost keys0 = self.keys@;
        let ghost offs0 = self.offs@;
        let ghost bounds0 = self.bounds();
        let end = self.vals.boundary();
        assert(self.vals.entries() =~= child);
        if end == self.offs[n - 1] {
            self.keys.pop();
            self.offs.pop();
            proof {
                assert(self.keys@ =~= keys0.drop_last());
                assert(!self.is_open()) by {
                    if n - 1 > 0 {
                        assert(offs0[0] < offs0[n - 1]);
                    }
                }
                assert(self.bounds() =~= bounds0.drop_last());
                assert forall|i: int| 0 <= i < self.closed_keys() implies consolidated(
                    #[trigger] span(self.offs@, self.vals.entries(), i),
                ) by {
                    assert(span(self.offs@, self.vals.entries(), i) == span(offs0, child, i));
                }
                assert forall|k: K, v: V| #[trigger] self.weight(k, v) == old(self).weight(k, v) by {
                    let now = self.level(v);
                    let was = old(self).level(v);
                    let last = (keys0[n - 1], R::zero_spec());
                    assert(span(bounds0, child, n - 1) =~= Seq::<(V, R)>::empty());
                    assert(was =~= now.push(last)) by {
                        assert forall|i: int| 0 <= i < now.len() implies now[i] == was[i] by {
                            assert(span(self.bounds(), child, i) == span(bounds0, child, i));
                        }
                    }
                    lemma_weight_push(now, last, k);
                    R::lemma_add_zero(weight_of(now, k));
                }
            }
        } else {
            self.offs[n] = end;
            proof {
                assert(self.offs@ =~= bounds0);
                assert(self.bounds() =~= bounds0);
                assert forall|i: int| 0 <= i < self.closed_keys() implies consolidated(
                    #[trigger] span(self.offs@, self.vals.entries(), i),
                ) by {
                    if i < n - 1 {
                        assert(span(self.offs@, self.vals.entries(), i) == span(offs0, child, i));
                    } else {
                        assert(span(self.offs@, self.vals.entries(), i) =~= run);
                    }
                }
                assert forall|i: int, j: int| 0 <= i < j <= self.closed_keys() implies self.offs@[i]
                    < self.offs@[j] by {
                    if j == n && i < n - 1 {
                        assert(offs0[i] < offs0[n - 1]);
                    }
                }
                assert forall|k: K, v: V| #[trigger] self.weight(k, v) == old(self).weight(k, v) by {
                    assert(self.level(v) =~= old(self).level(v));
                }
            }
        }
    }
}

impl<K: Ord + Clone, V: Ord + Clone, R: MonoidValue> OrderedBuilder<K, ColumnLayerBuilder<V, R>> {
    /// The tuple may be pushed: its key is behind the last key, or it is
    /// the open key and the tuple's value is not before the last value
    /// pushed for it.
    pub open spec fn accepts(&self, tuple: (K, (V, R))) -> bool {
        ||| self.keys@.len() == 0
        ||| key_lt(self.keys@.last(), tuple.0)
        ||| {
            &&& self.is_open()
            &&& self.keys@.last() == tuple.0
            &&& self.vals.open().len() > 0 ==> key_le(self.vals.open().last().0, tuple.1.0)
        }
    }

    /// Opens `key` as the new last key.
    fn open_key(&mut self, key: K)
        requires
            old(self).wf(),
            lawful::<K>(),
            old(self).keys@.len() > 0 ==> key_lt(old(self).keys@.last(), key) || (old(self).is_open()
                && old(self).vals.open().len() == 0),
            old(self).keys@.len() > 1 ==> key_lt(
                old(self).keys@[old(self).keys@.len() - 2],
                key,
            ),
        ensures
            final(self).wf(),
            final(self).is_open(),
            final(self).keys@.len() > 0,
            final(self).keys@.last() == key,
            final(self).vals.open().len() == 0,
            final(self).vals.entries() == old(self).vals.entries(),
            final(self).vals.keys@ == old(self).vals.keys@,
            forall|k: K, v: V| #[trigger] final(self).weight(k, v) == old(self).weight(k, v),
    {
        let n = self.keys.len();
        if n > 0 && self.offs[n] == 0 {
            self.close_key();
        }
        let ghost keys1 = self.keys@;
        let ghost offs1 = self.offs@;
        let ghost child = self.vals.entries();
        let ghost bounds1 = self.bounds();
        let ghost mid = *self;
        proof {
            assert(self.vals.open() =~= Seq::<(V, R)>::empty());
            if keys1.len() > 0 {
                // a key that stayed is before `key`
                if keys1.len() == n {
                    assert(keys1 =~= old(self).keys@);
                } else {
                    assert(keys1 =~= old(self).keys@.drop_last());
                    assert(keys1.last() == old(self).keys@[n - 2]);
                }
            }
        }
        self.keys.push(key);
        self.offs.push(0);
        proof {
            let m = keys1.len() as int;
            assert(self.is_open());
            assert(self.closed_keys() == m);
            assert forall|i: int, j: int| 0 <= i < j < self.keys@.len() implies key_lt(
                self.keys@[i],
                self.keys@[j],
            ) by {
                if j < m {
                    assert(key_lt(keys1[i], keys1[j]));
                } else if i < m - 1 {
                    assert(key_lt(keys1[i], keys1[m - 1]));
                    lemma_lt_transitive(keys1[i], keys1[m - 1], key);
                }
            }
            assert forall|i: int| 0 <= i < m implies consolidated(
                #[trigger] span(self.offs@, self.vals.entries(), i),
            ) by {
                assert(span(self.offs@, self.vals.entries(), i) == span(offs1, child, i));
            }
            assert forall|k: K, v: V| #[trigger] self.weight(k, v) == old(self).weight(k, v) by {
                let now = self.level(v);
                let was = mid.level(v);
                let last = (key, R::zero_spec());
                assert(span(self.bounds(), child, m) =~= Seq::<(V, R)>::empty());
                assert(now =~= was.push(last)) by {
                    assert forall|i: int| 0 <= i < was.len() implies now[i] == was[i] by {
                        assert(span(self.bounds(), child, i) == span(bounds1, child, i));
                    }
                }
                lemma_weight_push(was, last, k);
                R::lemma_add_zero(weight_of(was, k));
                assert(mid.weight(k, v) == old(self).weight(k, v));
            }
        }
    }

    /// Adds a value to the open key.
    fn push_value(&mut self, val: (V, R))
        requires
            old(self).wf(),
            old(self).is_open(),
            lawful::<V>(),
            old(self).vals.open().len() > 0 ==> key_le(old(self).vals.open().last().0, val.0),
        ensures
            final(self).wf(),
            final(self).is_open(),
            final(self).keys@ == old(self).keys@,
            final(self).offs@ == old(self).offs@,
            final(self).vals.open().len() > 0 ==> key_le(final(self).vals.open().last().0, val.0),
            final(self).vals.entries().len() <= old(self).vals.entries().len() + 1,
            final(self).vals.entries().len() >= final(self).vals.sealed == old(self).vals.sealed,
            forall|i: int|
                0 <= i < final(self).vals.keys@.len() ==> (#[trigger] final(self).vals.keys@[i])
                    == val.0 || (i < old(self).vals.keys@.len() && final(self).vals.keys@[i] == old(self).vals.keys@[i]),
            forall|k: K, v: V| #[trigger]
                final(self).weight(k, v) == old(self).weight(k, v).add_spec(
                    tuple_share((old(self).keys@.last(), val), k, v),
                ),
    {
        let ghost child0 = self.vals.entries();
        let ghost bounds0 = self.bounds();
        let ghost n = self.keys@.len() as int;
        let ghost key = self.keys@.last();
        let ghost sealed = self.vals.sealed as int;
        self.vals.push_tuple(val);
        proof {
            let child = self.vals.entries();
            let bounds = self.bounds();
            assert(child.subrange(0, sealed) == child0.subrange(0, sealed));
            assert forall|i: int| 0 <= i < n - 1 implies span(self.offs@, child, i) == span(
                self.offs@,
                child0,
                i,
            ) by {
                assert(self.offs@[i] < self.offs@[i + 1]);
                assert(i + 1 < n - 1 ==> self.offs@[i + 1] < self.offs@[n - 1]);
                assert(span(self.offs@, child, i) =~= child.subrange(0, sealed).subrange(
                    self.offs@[i] as int,
                    self.offs@[i + 1] as int,
                ));
                assert(span(self.offs@, child0, i) =~= child0.subrange(0, sealed).subrange(
                    self.offs@[i] as int,
                    self.offs@[i + 1] as int,
                ));
            }
            assert forall|i: int| 0 <= i < self.closed_keys() implies consolidated(
                #[trigger] span(self.offs@, self.vals.entries(), i),
            ) by {
                assert(span(self.offs@, child, i) == span(self.offs@, child0, i));
            }
            assert forall|k: K, v: V| #[trigger]
                self.weight(k, v) == old(self).weight(k, v).add_spec(
                    tuple_share((key, val), k, v),
                ) by {
                let now = self.level(v);
                let was = old(self).level(v);
                let front = was.drop_last();
                let w = weight_of(old(self).vals.open(), v);
                let s = share(val, v);
                assert(span(bounds0, child0, n - 1) =~= old(self).vals.open());
                assert(span(bounds, child, n - 1) =~= self.vals.open());
                assert(was =~= front.push((key, w)));
                assert(now =~= front.push((key, w.add_spec(s)))) by {
                    assert forall|i: int| 0 <= i < n - 1 implies now[i] == front[i] by {
                        assert(span(bounds, child, i) == span(self.offs@, child, i));
                        assert(span(bounds0, child0, i) == span(self.offs@, child0, i));
                    }
                }
                lemma_weight_last_grows(front, key, w, s, k);
            }
        }
    }

    /// Adds a tuple. Tuples arrive with keys that do not decrease, and
    /// under one key with values that do not decrease; equal tuples add
    /// up, and what adds up to zero leaves no trace.
    pub fn push_tuple(&mut self, tuple: (K, (V, R)))
        requires
            old(self).wf(),
            lawful::<K>(),
            lawful::<V>(),
            old(self).accepts(tuple),
        ensures
            final(self).wf(),
            final(self).is_open(),
            final(self).keys@.last() == tuple.0,
            final(self).vals.open().len() > 0 ==> key_le(final(self).vals.open().last().0, tuple.1.0),
            forall|i: int|
                0 <= i < final(self).vals.keys@.len() ==> (#[trigger] final(self).vals.keys@[i])
                    == tuple.1.0 || (i < old(self).vals.keys@.len() && final(self).vals.keys@[i]
                    == old(self).vals.keys@[i]),
            forall|k: K, v: V| #[trigger]
                final(self).weight(k, v) == old(self).weight(k, v).add_spec(tuple_share(tuple, k, v)),
    {
        let (key, val) = tuple;
        let n = self.keys.len();
        if n == 0 || self.offs[n] != 0 || !same(&self.keys[n - 1], &key) {
            proof {
                if n > 1 {
                    assert(key_lt(self.keys@[n - 2], self.keys@[n - 1]));
                    lemma_lt_transitive(self.keys@[n - 2], self.keys@[n - 1], key);
                }
            }
            self.open_key(key);
        } else {
            proof {
                lemma_lt_irreflexive(key);
            }
        }
        self.push_value(val);
    }

    /// Closes the open key and returns the number of keys.
    pub fn boundary(&mut self) -> (n: usize)
        requires
            old(self).wf(),
        ensures
            final(self).wf(),
            !final(self).is_open(),
            n == final(self).keys@.len(),
            final(self).vals.keys@ == old(self).vals.keys@,
            final(self).vals.diffs@ == old(self).vals.diffs@,
            forall|k: K, v: V| #[trigger] final(self).weight(k, v) == old(self).weight(k, v),
    {
        let n = self.keys.len();
        if n > 0 && self.offs[n] == 0 {
            self.close_key();
        }
        self.keys.len()
    }

    /// The layer that holds what was pushed.
    pub fn done(self) -> (layer: OrderedLayer<K, ColumnLayer<V, R>>)
        requires
            self.wf(),
        ensures
            layer.wf(),
            layer.vals.keys@ == self.vals.keys@,
            layer.vals.diffs@ == self.vals.diffs@,
            forall|k: K, v: V| #[trigger] layer.weight(k, v) == self.weight(k, v),
    {
        let mut builder = self;
        builder.boundary();
        let ghost closed = builder;
        let layer = OrderedLayer { keys: builder.keys, offs: builder.offs, vals: builder.vals.done() };
        proof {
            assert(layer.vals.entries() == closed.vals.entries());
            assert forall|k: K, v: V| #[trigger] layer.weight(k, v) == self.weight(k, v) by {
                assert(layer.level(v) =~= closed.level(v));
                assert(closed.weight(k, v) == self.weight(k, v));
            }
        }
        layer
    }
}

impl<K: Ord + Clone, V: Ord + Clone, R: MonoidValue> OrderedBuilder<K, ColumnLayerBuilder<V, R>> {
    /// A builder that holds nothing, with room for what two layers hold.
    /// The layers only say how much room to make.
    pub fn with_capacity_for(
        other1: &OrderedLayer<K, ColumnLayer<V, R>>,
        other2: &OrderedLayer<K, ColumnLayer<V, R>>,
    ) -> (builder: Self)
        ensures
            builder.wf(),
            builder.keys@.len() == 0,
            forall|k: K, v: V| #[trigger] builder.weight(k, v) == R::zero_spec(),
    {
        let mut builder = Self::with_capacity(other1.keys());
        builder.reserve(other2.keys());
        builder
    }

    /// Makes room for `additional` more keys: a hint to the allocator,
    /// which changes nothing that the builder holds.
    pub fn reserve(&mut self, additional: usize)
        ensures
            final(self).keys@ == old(self).keys@,
            final(self).offs@ == old(self).offs@,
            final(self).vals.keys@ == old(self).vals.keys@,
            final(self).vals.diffs@ == old(self).vals.diffs@,
            final(self).vals.sealed == old(self).vals.sealed,
            old(self).wf() ==> final(self).wf(),
            forall|k: K, v: V| #[trigger] final(self).weight(k, v) == old(self).weight(k, v),
    {
        self.keys.reserve(additional);
        self.offs.reserve(additional);
        self.vals.reserve(additional);
        proof {
            assert(self.vals.entries() == old(self).vals.entries());
            assert(self.bounds() == old(self).bounds());
            assert forall|k: K, v: V| #[trigger] self.weight(k, v) == old(self).weight(k, v) by {
                assert(self.level(v) == old(self).level(v));
            }
        }
    }

    /// Appends the keys at `lower..upper` of `other` with all their
    /// values. The keys lie behind the keys held.
    #[verifier::rlimit(60)]
    pub fn copy_range(
        &mut self,
        other: &OrderedLayer<K, ColumnLayer<V, R>>,
        lower: usize,
        upper: usize,
    )
        requires
            old(self).wf(),
            !old(self).is_open(),
            other.wf(),
            lawful::<K>(),
            faithful_clone::<K>(),
            faithful_clone::<V>(),
            lower < upper <= other.keys@.len(),
            old(self).keys@.len() > 0 ==> key_lt(old(self).keys@.last(), other.keys@[lower as int]),
        ensures
            final(self).wf(),
            !final(self).is_open(),
            final(self).keys@ == old(self).keys@ + other.keys@.subrange(lower as int, upper as int),
            final(self).vals.keys@.len() == old(self).vals.keys@.len() + (other.offs@[upper as int]
                - other.offs@[lower as int]),
            forall|k: K, v: V| #[trigger]
                final(self).weight(k, v) == old(self).weight(k, v).add_spec(
                    other.span_weight(lower as int, upper as int, k, v),
                ),
    {
        let other_basis = other.offs[lower];
        let other_end = other.offs[upper];
        let self_basis = self.vals.tuples();
        let ghost n = self.keys@.len() as int;
        let ghost keys0 = self.keys@;
        let ghost offs0 = self.offs@;
        let ghost child0 = self.vals.entries();
        let ghost theirs = other.vals.entries();
        proof {
            assert(other.offs@[lower as int] < other.offs@[upper as int]);
            assert(upper < other.keys@.len() ==> other.offs@[upper as int] < other.offs@[other.keys@.len() as int]);
        }
        self.keys.extend_from_slice(&other.keys[lower..upper]);
        proof {
            let want = keys0 + other.keys@.subrange(lower as int, upper as int);
            assert forall|i: int| 0 <= i < self.keys@.len() implies self.keys@[i] == want[i] by {
                if i >= n {
                    assert(cloned(
                        other.keys@.subrange(lower as int, upper as int)[i - n],
                        self.keys@[i],
                    ));
                }
            }
            assert(self.keys@ =~= want);
        }
        self.vals.copy_range(&other.vals, other_basis, other_end);
        let mut index = lower;
        while index < upper
            invariant
                lower <= index <= upper <= other.keys@.len(),
                other.wf(),
                theirs == other.vals.entries(),
                other_basis <= other_end <= theirs.len(),
                self.vals.keys@.len() == self_basis + (other_end - other_basis),
                self.keys@ == keys0 + other.keys@.subrange(lower as int, upper as int),
                self.vals.wf(),
                self.vals.sealed == self.vals.entries().len(),
                other_basis == other.offs@[lower as int],
                other_end == other.offs@[upper as int],
                self_basis == child0.len(),
                self.vals.entries() == child0 + theirs.subrange(other_basis as int, other_end as int),
                self.offs@.len() == offs0.len() + (index - lower),
                forall|i: int| 0 <= i < offs0.len() ==> self.offs@[i] == offs0[i],
                forall|j: int|
                    0 <= j < index - lower ==> (#[trigger] self.offs@[offs0.len() + j]) == self_basis
                        + (other.offs@[lower + 1 + j] - other_basis),
            decreases upper - index,
        {
            proof {
                assert(other.offs@[lower as int] < other.offs@[index + 1]);
                assert(index + 1 < upper ==> other.offs@[index + 1] < other.offs@[upper as int]);
            }
            self.offs.push(self_basis + (other.offs[index + 1] - other_basis));
            index += 1;
        }
        proof {
            let count = upper - lower;
            let child = self.vals.entries();
            // the offsets of the new keys, one by one
            assert forall|j: int| 0 <= j <= count implies (#[trigger] self.offs@[n + j]) == self_basis
                + (other.offs@[lower + j] - other_basis) by {
                if j > 0 {
                    assert(self.offs@[offs0.len() + (j - 1)] == self_basis + (other.offs@[lower + 1
                        + (j - 1)] - other_basis));
                }
            }
            assert(!self.is_open());
            assert forall|i: int, j: int| 0 <= i < j < self.keys@.len() implies key_lt(
                self.keys@[i],
                self.keys@[j],
            ) by {
                if j < n {
                    assert(key_lt(keys0[i], keys0[j]));
                } else if i >= n {
                    assert(key_lt(other.keys@[lower + (i - n)], other.keys@[lower + (j - n)]));
                } else {
                    if i < n - 1 {
                        assert(key_lt(keys0[i], keys0[n - 1]));
                        lemma_lt_transitive(keys0[i], keys0[n - 1], other.keys@[lower as int]);
                    }
                    if j > n {
                        assert(key_lt(other.keys@[lower as int], other.keys@[lower + (j - n)]));
                        lemma_lt_transitive(
                            self.keys@[i],
                            other.keys@[lower as int],
                            other.keys@[lower + (j - n)],
                        );
                    }
                }
            }
            assert forall|i: int, j: int| 0 <= i < j <= self.closed_keys() implies self.offs@[i]
                < self.offs@[j] by {
                if j <= n {
                    assert(offs0[i] < offs0[j]);
                } else if i >= n {
                    assert(self.offs@[n + (i - n)] == self_basis + (other.offs@[lower + (i - n)]
                        - other_basis));
                    assert(self.offs@[n + (j - n)] == self_basis + (other.offs@[lower + (j - n)]
                        - other_basis));
                    assert(other.offs@[lower + (i - n)] < other.offs@[lower + (j - n)]);
                } else {
                    assert(self.offs@[n + (j - n)] == self_basis + (other.offs@[lower + (j - n)]
                        - other_basis));
                    assert(other.offs@[lower as int] < other.offs@[lower + (j - n)]);
                    assert(i < n ==> offs0[i] < offs0[n]);
                }
            }
            assert forall|i: int| 0 <= i < self.keys@.len() implies span(self.offs@, child, i) == (
            if i < n {
                span(offs0, child0, i)
            } else {
                span(other.offs@, theirs, lower + (i - n))
            }) by {
                if i < n {
                    assert(offs0[i] < offs0[i + 1]);
                    assert(i + 1 < n ==> offs0[i + 1] < offs0[n]);
                    assert(span(self.offs@, child, i) =~= span(offs0, child0, i));
                } else {
                    let j = i - n;
                    assert(self.offs@[n + j] == self_basis + (other.offs@[lower + j] - other_basis));
                    assert(self.offs@[n + (j + 1)] == self_basis + (other.offs@[lower + (j + 1)]
                        - other_basis));
                    assert(other.offs@[lower + j] < other.offs@[lower + j + 1]);
                    assert(j > 0 ==> other.offs@[lower as int] < other.offs@[lower + j]);
                    assert(lower + j + 1 < upper ==> other.offs@[lower + j + 1] < other.offs@[upper as int]);
                    assert(span(self.offs@, child, i) =~= span(other.offs@, theirs, lower + j));
                }
            }
            assert forall|i: int| 0 <= i < self.closed_keys() implies consolidated(
                #[trigger] span(self.offs@, self.vals.entries(), i),
            ) by {
                if i < n {
                    assert(consolidated(span(offs0, child0, i)));
                } else {
                    assert(consolidated(span(other.offs@, theirs, lower + (i - n))));
                }
            }
            assert(self.offs@[n + count] == self_basis + (other.offs@[lower + count] - other_basis));
            assert forall|k: K, v: V| #[trigger]
                self.weight(k, v) == old(self).weight(k, v).add_spec(
                    other.span_weight(lower as int, upper as int, k, v),
                ) by {
                let now = self.level(v);
                let was = old(self).level(v);
                let more = other.level(v).subrange(lower as int, upper as int);
                assert(now =~= was + more) by {
                    assert forall|i: int| 0 <= i < now.len() implies now[i] == (was + more)[i] by {
                        if i < n {
                            assert(span(self.offs@, child, i) == span(offs0, child0, i));
                        } else {
                            assert(span(self.offs@, child, i) == span(
                                other.offs@,
                                theirs,
                                lower + (i - n),
                            ));
                        }
                    }
                }
                lemma_weight_concat(was, more, k);
            }
        }
    }
}

/// `(((w + a1) + b1) + a2) + b2` is `(w + (a1 + a2)) + (b1 + b2)`.
proof fn lemma_regroup<R: MonoidValue>(w: R, a1: R, b1: R, a2: R, b2: R)
    ensures
        w.add_spec(a1).add_spec(b1).add_spec(a2).add_spec(b2) == w.add_spec(a1.add_spec(a2)).add_spec(
            b1.add_spec(b2),
        ),
{
    R::lemma_add_associative(w.add_spec(a1), b1, a2);
    R::lemma_add_commutative(b1, a2);
    R::lemma_add_associative(w.add_spec(a1), a2, b1);
    R::lemma_add_associative(w, a1, a2);
    R::lemma_add_associative(w.add_spec(a1.add_spec(a2)), b1, b2);
}

impl<K: Ord + Clone, V: Ord + Clone, R: MonoidValue> OrderedBuilder<K, ColumnLayerBuilder<V, R>> {
    /// Performs one step of merging two layers into the builder, from
    /// the key positions `*first.1` of `first.0` and `*second.1` of
    /// `second.0`, and moves the positions behind what was merged.
    ///
    /// Where the two keys differ, the smaller one is copied with its
    /// values, together with all the keys behind it that are before the
    /// other key, `MERGE_STRIDE` keys at most. Where they are equal, their
    /// values are merged, and the key is kept if any value is left.
    pub fn merge_step(
        &mut self,
        first: (&OrderedLayer<K, ColumnLayer<V, R>>, &mut usize, usize),
        second: (&OrderedLayer<K, ColumnLayer<V, R>>, &mut usize, usize),
    )
        requires
            old(self).wf(),
            !old(self).is_open(),
            first.0.wf(),
            second.0.wf(),
            lawful::<K>(),
            lawful::<V>(),
            faithful_clone::<K>(),
            faithful_clone::<V>(),
            *old(first.1) < first.2 <= first.0.keys@.len(),
            *old(second.1) < second.2 <= second.0.keys@.len(),
            old(self).keys@.len() > 0 ==> key_lt(
                old(self).keys@.last(),
                first.0.keys@[*old(first.1) as int],
            ) && key_lt(old(self).keys@.last(), second.0.keys@[*old(second.1) as int]),
        ensures
            final(self).wf(),
            !final(self).is_open(),
            *old(first.1) <= *final(first.1) <= first.2,
            *old(second.1) <= *final(second.1) <= second.2,
            *final(first.1) + *final(second.1) > *old(first.1) + *old(second.1),
            *final(first.1) - *old(first.1) <= MERGE_STRIDE,
            *final(second.1) - *old(second.1) <= MERGE_STRIDE,
            final(self).keys@.len() > 0 && *final(first.1) < first.2 ==> key_lt(
                final(self).keys@.last(),
                first.0.keys@[*final(first.1) as int],
            ),
            final(self).keys@.len() > 0 && *final(second.1) < second.2 ==> key_lt(
                final(self).keys@.last(),
                second.0.keys@[*final(second.1) as int],
            ),
            final(self).vals.keys@.len() >= old(self).vals.keys@.len(),
            final(self).vals.keys@.len() - old(self).vals.keys@.len()
                <= (first.0.offs@[*final(first.1) as int] - first.0.offs@[*old(first.1) as int])
                + (second.0.offs@[*final(second.1) as int] - second.0.offs@[*old(second.1) as int]),
            key_lt(first.0.keys@[*old(first.1) as int], second.0.keys@[*old(second.1) as int])
                ==> final(self).vals.keys@.len() - old(self).vals.keys@.len()
                == first.0.offs@[*final(first.1) as int] - first.0.offs@[*old(first.1) as int],
            key_lt(second.0.keys@[*old(second.1) as int], first.0.keys@[*old(first.1) as int])
                ==> final(self).vals.keys@.len() - old(self).vals.keys@.len()
                == second.0.offs@[*final(second.1) as int] - second.0.offs@[*old(second.1) as int],
            first.0.keys@[*old(first.1) as int] == second.0.keys@[*old(second.1) as int]
                ==> final(self).vals.keys@.len() - old(self).vals.keys@.len() == summed_run(
                span(first.0.offs@, first.0.vals.entries(), *old(first.1) as int),
                span(second.0.offs@, second.0.vals.entries(), *old(second.1) as int),
            ).len(),
            key_lt(
                first.0.keys@[*old(first.1) as int],
                second.0.keys@[*old(second.1) as int],
            ) ==> *final(second.1) == *old(second.1),
            key_lt(
                second.0.keys@[*old(second.1) as int],
                first.0.keys@[*old(first.1) as int],
            ) ==> *final(first.1) == *old(first.1),
            first.0.keys@[*old(first.1) as int] == second.0.keys@[*old(second.1) as int]
                ==> *final(first.1) == *old(first.1) + 1 && *final(second.1) == *old(second.1) + 1,
            forall|i: int|
                *old(first.1) <= i < *final(first.1) && *final(second.1) == *old(second.1)
                    ==> key_lt(#[trigger] first.0.keys@[i], second.0.keys@[*old(second.1) as int]),
            forall|i: int|
                *old(second.1) <= i < *final(second.1) && *final(first.1) == *old(first.1)
                    ==> key_lt(#[trigger] second.0.keys@[i], first.0.keys@[*old(first.1) as int]),
            key_lt(first.0.keys@[*old(first.1) as int], second.0.keys@[*old(second.1) as int])
                && *final(first.1) < first.2 && *final(first.1) - *old(first.1) < MERGE_STRIDE
                ==> !key_lt(
                first.0.keys@[*final(first.1) as int],
                second.0.keys@[*old(second.1) as int],
            ),
            key_lt(second.0.keys@[*old(second.1) as int], first.0.keys@[*old(first.1) as int])
                && *final(second.1) < second.2 && *final(second.1) - *old(second.1) < MERGE_STRIDE
                ==> !key_lt(
                second.0.keys@[*final(second.1) as int],
                first.0.keys@[*old(first.1) as int],
            ),
            forall|k: K, v: V| #[trigger]
                final(self).weight(k, v) == old(self).weight(k, v).add_spec(
                    first.0.span_weight(*old(first.1) as int, *final(first.1) as int, k, v),
                ).add_spec(
                    second.0.span_weight(*old(second.1) as int, *final(second.1) as int, k, v),
                ),
    {
        let (trie1, lower1, upper1) = first;
        let (trie2, lower2, upper2) = second;
        let at1 = *lower1;
        let at2 = *lower2;
        let ghost key1 = trie1.keys@[at1 as int];
        let ghost key2 = trie2.keys@[at2 as int];
        let ghost keys0 = self.keys@;
        proof {
            lemma_lt_total(key1, key2);
            assert forall|i: int, j: int| 0 <= i < j < upper1 - at1 implies key_lt(
                trie1.keys@.subrange(at1 as int, upper1 as int)[i],
                trie1.keys@.subrange(at1 as int, upper1 as int)[j],
            ) by {
                assert(key_lt(trie1.keys@[at1 + i], trie1.keys@[at1 + j]));
            }
            assert forall|i: int, j: int| 0 <= i < j < upper2 - at2 implies key_lt(
                trie2.keys@.subrange(at2 as int, upper2 as int)[i],
                trie2.keys@.subrange(at2 as int, upper2 as int)[j],
            ) by {
                assert(key_lt(trie2.keys@[at2 + i], trie2.keys@[at2 + j]));
            }
        }
        if less(&trie1.keys[at1], &trie2.keys[at2]) {
            // determine how far we can advance lower1 until we reach/pass lower2
            let step = stride(&trie1.keys, at1, upper1, &trie2.keys[at2]);
            self.copy_range(trie1, at1, at1 + step);
            *lower1 = at1 + step;
            proof {
                let last = trie1.keys@[at1 + step - 1];
                assert(self.keys@.last() == last);
                if at1 + step < upper1 {
                    assert(key_lt(last, trie1.keys@[at1 + step]));
                }
                assert forall|k: K, v: V| #[trigger]
                    self.weight(k, v) == old(self).weight(k, v).add_spec(
                        trie1.span_weight(at1 as int, at1 + step, k, v),
                    ).add_spec(trie2.span_weight(at2 as int, at2 as int, k, v)) by {
                    assert(trie2.level(v).subrange(at2 as int, at2 as int) =~= Seq::<
                        (K, R),
                    >::empty());
                    R::lemma_add_zero(self.weight(k, v));
                }
            }
        } else if same(&trie1.keys[at1], &trie2.keys[at2]) {
            let ghost child0 = self.vals.entries();
            let ghost offs0 = self.offs@;
            let ghost n = self.keys@.len() as int;
            let lower = self.vals.boundary();
            let cursor1 = trie1.vals.cursor_from(trie1.offs[at1], trie1.offs[at1 + 1]);
            let cursor2 = trie2.vals.cursor_from(trie2.offs[at2], trie2.offs[at2 + 1]);
            proof {
                assert(cursor1.storage.range(cursor1.bounds.0 as int, cursor1.bounds.1 as int)
                    == span(trie1.offs@, trie1.vals.entries(), at1 as int));
                assert(cursor2.storage.range(cursor2.bounds.0 as int, cursor2.bounds.1 as int)
                    == span(trie2.offs@, trie2.vals.entries(), at2 as int));
            }
            // record vals_length so we can tell if anything was pushed.
            let upper = self.vals.push_merge(cursor1, cursor2);
            let ghost met = self.vals.entries().subrange(lower as int, upper as int);
            if upper > lower {
                self.keys.push(duplicate(&trie1.keys[at1]));
                self.offs.push(upper);
            }
            *lower1 = at1 + 1;
            *lower2 = at2 + 1;
            proof {
                let child = self.vals.entries();
                let span1 = span(trie1.offs@, trie1.vals.entries(), at1 as int);
                let span2 = span(trie2.offs@, trie2.vals.entries(), at2 as int);
                lemma_lt_irreflexive(key1);
                assert(met.len() == self.vals.keys@.len() - old(self).vals.keys@.len());
                lemma_summed_run(span1, span2, met);
                assert(child.subrange(0, lower as int) == child0);
                assert(!self.is_open());
                assert forall|i: int| 0 <= i < n implies span(self.offs@, child, i) == span(
                    offs0,
                    child0,
                    i,
                ) by {
                    assert(offs0[i] < offs0[i + 1]);
                    assert(i + 1 < n ==> offs0[i + 1] < offs0[n]);
                    assert(span(self.offs@, child, i) =~= child.subrange(0, lower as int).subrange(
                        offs0[i] as int,
                        offs0[i + 1] as int,
                    ));
                    assert(span(offs0, child0, i) =~= child0.subrange(
                        offs0[i] as int,
                        offs0[i + 1] as int,
                    ));
                }
                if upper > lower {
                    assert(span(self.offs@, child, n) =~= met);
                    assert forall|i: int, j: int| 0 <= i < j < self.keys@.len() implies key_lt(
                        self.keys@[i],
                        self.keys@[j],
                    ) by {
                        if j < n {
                            assert(key_lt(keys0[i], keys0[j]));
                        } else if i < n - 1 {
                            assert(key_lt(keys0[i], keys0[n - 1]));
                            lemma_lt_transitive(keys0[i], keys0[n - 1], key1);
                        }
                    }
                    assert forall|i: int, j: int|
                        0 <= i < j <= self.closed_keys() implies self.offs@[i] < self.offs@[j] by {
                        if j <= n {
                            assert(offs0[i] < offs0[j]);
                        } else if i < n {
                            assert(offs0[i] < offs0[n]);
                        }
                    }
                }
                assert forall|i: int| 0 <= i < self.closed_keys() implies consolidated(
                    #[trigger] span(self.offs@, self.vals.entries(), i),
                ) by {
                    if i < n {
                        assert(consolidated(span(offs0, child0, i)));
                    }
                }
                if self.keys@.len() > 0 {
                    let last = self.keys@.last();
                    if upper > lower {
                        assert(last == key1);
                    } else {
                        assert(last == keys0.last());
                    }
                    if at1 + 1 < upper1 {
                        assert(key_lt(key1, trie1.keys@[at1 + 1]));
                        if last != key1 {
                            lemma_lt_transitive(last, key1, trie1.keys@[at1 + 1]);
                        }
                    }
                    if at2 + 1 < upper2 {
                        assert(key_lt(key2, trie2.keys@[at2 + 1]));
                        if last != key1 {
                            lemma_lt_transitive(last, key2, trie2.keys@[at2 + 1]);
                        }
                    }
                }
                assert forall|k: K, v: V| #[trigger]
                    self.weight(k, v) == old(self).weight(k, v).add_spec(
                        trie1.span_weight(at1 as int, at1 + 1, k, v),
                    ).add_spec(trie2.span_weight(at2 as int, at2 + 1, k, v)) by {
                    let now = self.level(v);
                    let was = old(self).level(v);
                    let w1 = weight_of(span1, v);
                    let w2 = weight_of(span2, v);
                    let one1 = trie1.level(v).subrange(at1 as int, at1 + 1);
                    let one2 = trie2.level(v).subrange(at2 as int, at2 + 1);
                    assert(one1 =~= seq![(key1, w1)]);
                    assert(one2 =~= seq![(key1, w2)]);
                    crate::zset::lemma_weight_one((key1, w1), k);
                    crate::zset::lemma_weight_one((key1, w2), k);
                    assert(weight_of(met, v) == w1.add_spec(w2));
                    assert forall|i: int| 0 <= i < n implies now[i] == was[i] by {
                        assert(span(self.offs@, child, i) == span(offs0, child0, i));
                    }
                    let s1 = share((key1, w1), k);
                    let s2 = share((key1, w2), k);
                    if upper > lower {
                        assert(now =~= was.push((key1, w1.add_spec(w2))));
                        lemma_weight_push(was, (key1, w1.add_spec(w2)), k);
                        if k != key1 {
                            R::lemma_add_zero(R::zero_spec());
                        }
                    } else {
                        assert(now =~= was);
                        assert(met =~= Seq::<(V, R)>::empty());
                        R::lemma_add_zero(R::zero_spec());
                        R::lemma_add_zero(weight_of(was, k));
                    }
                    assert(weight_of(now, k) == weight_of(was, k).add_spec(s1.add_spec(s2)));
                    R::lemma_add_associative(weight_of(was, k), s1, s2);
                }
            }
        } else {
            // determine how far we can advance lower2 until we reach/pass lower1
            let step = stride(&trie2.keys, at2, upper2, &trie1.keys[at1]);
            self.copy_range(trie2, at2, at2 + step);
            *lower2 = at2 + step;
            proof {
                let last = trie2.keys@[at2 + step - 1];
                assert(self.keys@.last() == last);
                if at2 + step < upper2 {
                    assert(key_lt(last, trie2.keys@[at2 + step]));
                }
                assert forall|k: K, v: V| #[trigger]
                    self.weight(k, v) == old(self).weight(k, v).add_spec(
                        trie1.span_weight(at1 as int, at1 as int, k, v),
                    ).add_spec(trie2.span_weight(at2 as int, at2 + step, k, v)) by {
                    assert(trie1.level(v).subrange(at1 as int, at1 as int) =~= Seq::<
                        (K, R),
                    >::empty());
                    R::lemma_add_zero(old(self).weight(k, v));
                }
            }
        }
    }

    /// Merges the ranges of two cursors into the builder and returns the
    /// number of keys then held. The keys of both ranges lie behind the
    /// keys held.
    pub fn push_merge<'a>(
        &mut self,
        cursor1: OrderedCursor<'a, K, V, R>,
        cursor2: OrderedCursor<'a, K, V, R>,
    ) -> (n: usize)
        requires
            old(self).wf(),
            !old(self).is_open(),
            cursor1.wf(),
            cursor2.wf(),
            lawful::<K>(),
            lawful::<V>(),
            faithful_clone::<K>(),
            faithful_clone::<V>(),
            old(self).keys@.len() > 0 && cursor1.bounds.0 < cursor1.bounds.1 ==> key_lt(
                old(self).keys@.last(),
                cursor1.storage.keys@[cursor1.bounds.0 as int],
            ),
            old(self).keys@.len() > 0 && cursor2.bounds.0 < cursor2.bounds.1 ==> key_lt(
                old(self).keys@.last(),
                cursor2.storage.keys@[cursor2.bounds.0 as int],
            ),
        ensures
            final(self).wf(),
            !final(self).is_open(),
            n == final(self).keys@.len(),
            forall|k: K, v: V| #[trigger]
                final(self).weight(k, v) == old(self).weight(k, v).add_spec(
                    cursor1.storage.span_weight(
                        cursor1.bounds.0 as int,
                        cursor1.bounds.1 as int,
                        k,
                        v,
                    ),
                ).add_spec(
                    cursor2.storage.span_weight(
                        cursor2.bounds.0 as int,
                        cursor2.bounds.1 as int,
                        k,
                        v,
                    ),
                ),
    {
        let trie1 = cursor1.storage;
        let trie2 = cursor2.storage;
        let first1 = cursor1.bounds.0;
        let first2 = cursor2.bounds.0;
        let upper1 = cursor1.bounds.1;
        let upper2 = cursor2.bounds.1;
        let mut lower1 = first1;
        let mut lower2 = first2;
        self.reserve(upper1 - lower1);
        self.reserve(upper2 - lower2);
        proof {
            assert forall|k: K, v: V| #[trigger]
                self.weight(k, v) == old(self).weight(k, v).add_spec(
                    trie1.span_weight(first1 as int, first1 as int, k, v),
                ).add_spec(trie2.span_weight(first2 as int, first2 as int, k, v)) by {
                assert(trie1.level(v).subrange(first1 as int, first1 as int) =~= Seq::<
                    (K, R),
                >::empty());
                assert(trie2.level(v).subrange(first2 as int, first2 as int) =~= Seq::<
                    (K, R),
                >::empty());
                R::lemma_add_zero(old(self).weight(k, v));
            }
        }
        // while both mergees are still active
        while lower1 < upper1 && lower2 < upper2
            invariant
                self.wf(),
                !self.is_open(),
                trie1.wf(),
                trie2.wf(),
                lawful::<K>(),
                lawful::<V>(),
                faithful_clone::<K>(),
                faithful_clone::<V>(),
                first1 <= lower1 <= upper1 <= trie1.keys@.len(),
                first2 <= lower2 <= upper2 <= trie2.keys@.len(),
                self.keys@.len() > 0 && lower1 < upper1 ==> key_lt(
                    self.keys@.last(),
                    trie1.keys@[lower1 as int],
                ),
                self.keys@.len() > 0 && lower2 < upper2 ==> key_lt(
                    self.keys@.last(),
                    trie2.keys@[lower2 as int],
                ),
                forall|k: K, v: V| #[trigger]
                    self.weight(k, v) == old(self).weight(k, v).add_spec(
                        trie1.span_weight(first1 as int, lower1 as int, k, v),
                    ).add_spec(trie2.span_weight(first2 as int, lower2 as int, k, v)),
            decreases (upper1 - lower1) + (upper2 - lower2),
        {
            let ghost before = *self;
            let ghost at1 = lower1 as int;
            let ghost at2 = lower2 as int;
            self.merge_step((trie1, &mut lower1, upper1), (trie2, &mut lower2, upper2));
            proof {
                assert forall|k: K, v: V| #[trigger]
                    self.weight(k, v) == old(self).weight(k, v).add_spec(
                        trie1.span_weight(first1 as int, lower1 as int, k, v),
                    ).add_spec(trie2.span_weight(first2 as int, lower2 as int, k, v)) by {
                    let l1 = trie1.level(v);
                    let l2 = trie2.level(v);
                    assert(l1.subrange(first1 as int, lower1 as int) =~= l1.subrange(
                        first1 as int,
                        at1,
                    ) + l1.subrange(at1, lower1 as int));
                    assert(l2.subrange(first2 as int, lower2 as int) =~= l2.subrange(
                        first2 as int,
                        at2,
                    ) + l2.subrange(at2, lower2 as int));
                    lemma_weight_concat(
                        l1.subrange(first1 as int, at1),
                        l1.subrange(at1, lower1 as int),
                        k,
                    );
                    lemma_weight_concat(
                        l2.subrange(first2 as int, at2),
                        l2.subrange(at2, lower2 as int),
                        k,
                    );
                    assert(before.weight(k, v) == old(self).weight(k, v).add_spec(
                        trie1.span_weight(first1 as int, at1, k, v),
                    ).add_spec(trie2.span_weight(first2 as int, at2, k, v)));
                    lemma_regroup(
                        old(self).weight(k, v),
                        trie1.span_weight(first1 as int, at1, k, v),
                        trie2.span_weight(first2 as int, at2, k, v),
                        trie1.span_weight(at1, lower1 as int, k, v),
                        trie2.span_weight(at2, lower2 as int, k, v),
                    );
                }
            }
        }
        if lower1 < upper1 {
            let ghost before = *self;
            let ghost at1 = lower1 as int;
            self.copy_range(trie1, lower1, upper1);
            proof {
                assert forall|k: K, v: V| #[trigger]
                    self.weight(k, v) == old(self).weight(k, v).add_spec(
                        trie1.span_weight(first1 as int, upper1 as int, k, v),
                    ).add_spec(trie2.span_weight(first2 as int, lower2 as int, k, v)) by {
                    let l1 = trie1.level(v);
                    assert(l1.subrange(first1 as int, upper1 as int) =~= l1.subrange(
                        first1 as int,
                        at1,
                    ) + l1.subrange(at1, upper1 as int));
                    lemma_weight_concat(
                        l1.subrange(first1 as int, at1),
                        l1.subrange(at1, upper1 as int),
                        k,
                    );
                    assert(before.weight(k, v) == old(self).weight(k, v).add_spec(
                        trie1.span_weight(first1 as int, at1, k, v),
                    ).add_spec(trie2.span_weight(first2 as int, lower2 as int, k, v)));
                    assert(trie2.level(v).subrange(lower2 as int, lower2 as int) =~= Seq::<
                        (K, R),
                    >::empty());
                    R::lemma_add_zero(trie2.span_weight(first2 as int, lower2 as int, k, v));
                    R::lemma_add_zero(self.weight(k, v));
                    lemma_regroup(
                        old(self).weight(k, v),
                        trie1.span_weight(first1 as int, at1, k, v),
                        trie2.span_weight(first2 as int, lower2 as int, k, v),
                        trie1.span_weight(at1, upper1 as int, k, v),
                        R::zero_spec(),
                    );
                }
            }
            lower1 = upper1;
        }
        if lower2 < upper2 {
            let ghost before = *self;
            let ghost at2 = lower2 as int;
            proof {
                if self.keys@.len() > 0 {
                    // what was copied from the first layer lies before this key too
                    assert(key_lt(self.keys@.last(), trie2.keys@[lower2 as int]));
                }
            }
            self.copy_range(trie2, lower2, upper2);
            proof {
                assert forall|k: K, v: V| #[trigger]
                    self.weight(k, v) == old(self).weight(k, v).add_spec(
                        trie1.span_weight(first1 as int, lower1 as int, k, v),
                    ).add_spec(trie2.span_weight(first2 as int, upper2 as int, k, v)) by {
                    let l2 = trie2.level(v);
                    assert(l2.subrange(first2 as int, upper2 as int) =~= l2.subrange(
                        first2 as int,
                        at2,
                    ) + l2.subrange(at2, upper2 as int));
                    lemma_weight_concat(
                        l2.subrange(first2 as int, at2),
                        l2.subrange(at2, upper2 as int),
                        k,
                    );
                    assert(before.weight(k, v) == old(self).weight(k, v).add_spec(
                        trie1.span_weight(first1 as int, lower1 as int, k, v),
                    ).add_spec(trie2.span_weight(first2 as int, at2, k, v)));
                    R::lemma_add_associative(
                        old(self).weight(k, v).add_spec(
                            trie1.span_weight(first1 as int, lower1 as int, k, v),
                        ),
                        trie2.span_weight(first2 as int, at2, k, v),
                        trie2.span_weight(at2, upper2 as int, k, v),
                    );
                }
            }
            lower2 = upper2;
        }
        self.keys.len()
    }
}

impl<K: Ord + Clone, V: Ord + Clone, R: MonoidValue> OrderedLayer<K, ColumnLayer<V, R>> {
    /// The union of two layers: each tuple has the sum of the weights it
    /// has in the two.
    #[verifier::rlimit(40)]
    pub fn merge(&self, other: &Self) -> (merged: Self)
        requires
            self.wf(),
            other.wf(),
            lawful::<K>(),
            lawful::<V>(),
            faithful_clone::<K>(),
            faithful_clone::<V>(),
        ensures
            merged.wf(),
            forall|k: K, v: V| #[trigger]
                merged.weight(k, v) == self.weight(k, v).add_spec(other.weight(k, v)),
    {
        let mut builder = OrderedBuilder::with_capacity_for(self, other);
        let ghost start = builder;
        let cursor1 = self.cursor();
        let cursor2 = other.cursor();
        let ghost n1 = self.keys@.len() as int;
        let ghost n2 = other.keys@.len() as int;
        assert(cursor1.bounds.0 == 0 && cursor1.bounds.1 == n1);
        assert(cursor2.bounds.0 == 0 && cursor2.bounds.1 == n2);
        builder.push_merge(cursor1, cursor2);
        let ghost filled = builder;
        let merged = builder.done();
        proof {
            assert forall|k: K, v: V| #[trigger]
                merged.weight(k, v) == self.weight(k, v).add_spec(other.weight(k, v)) by {
                assert(self.level(v).subrange(0, n1) =~= self.level(v));
                assert(other.level(v).subrange(0, n2) =~= other.level(v));
                assert(self.span_weight(0, n1, k, v) == self.weight(k, v));
                assert(other.span_weight(0, n2, k, v) == other.weight(k, v));
                assert(start.weight(k, v) == R::zero_spec());
                assert(filled.weight(k, v) == start.weight(k, v).add_spec(
                    self.span_weight(0, n1, k, v),
                ).add_spec(other.span_weight(0, n2, k, v)));
                assert(merged.weight(k, v) == filled.weight(k, v));
                lemma_zero_add(self.weight(k, v));
            }
        }
        merged
    }
}

/// The values of one key of an ordered builder, as `with_key` hands them
/// out: the builder, the key where no value has opened it yet, and the
/// number of values pushed.
pub struct OrderedBuilderVals<K, L> {
    builder: OrderedBuilder<K, L>,
    key: Option<K>,
    pushes: usize,
}

impl<K: Ord + Clone, V: Ord + Clone, R: MonoidValue> OrderedBuilderVals<K, ColumnLayerBuilder<V, R>> {
    /// The builder that takes the values.
    pub closed spec fn builder(&self) -> OrderedBuilder<K, ColumnLayerBuilder<V, R>> {
        self.builder
    }

    /// The number of values pushed, as far as a `usize` counts.
    pub closed spec fn pushes(&self) -> usize {
        self.pushes
    }

    /// The key that waits for its first value: it is not yet a key of
    /// the builder. `None` once the key is open in the builder.
    pub closed spec fn pending(&self) -> Option<K> {
        self.key
    }

    /// The key that the values are pushed under.
    pub open spec fn key(&self) -> K {
        match self.pending() {
            Some(key) => key,
            None => self.builder().keys@.last(),
        }
    }

    /// The values that the key has so far in its open run.
    pub open spec fn open_values(&self) -> Seq<(V, R)> {
        match self.pending() {
            Some(_) => Seq::empty(),
            None => self.builder().vals.open(),
        }
    }

    /// The builder is well formed; a key that waits lies behind the keys
    /// of the builder and no value was pushed; otherwise the last key of
    /// the builder is open.
    pub open spec fn wf(&self) -> bool {
        &&& self.builder().wf()
        &&& match self.pending() {
            Some(key) => self.pushes() == 0 && (self.builder().keys@.len() == 0 || key_lt(
                self.builder().keys@.last(),
                key,
            )),
            None => self.builder().is_open(),
        }
    }

    /// `self` is `from` made ready to take values of `key`: the builder
    /// is `from` as it is, no value was pushed yet, and `key` waits for
    /// its first value unless it is the open key of `from` already.
    pub open spec fn opens(&self, from: OrderedBuilder<K, ColumnLayerBuilder<V, R>>, key: K) -> bool {
        &&& self.wf()
        &&& self.builder() == from
        &&& self.pushes() == 0
        &&& self.key() == key
        &&& self.pending().is_none() == (from.is_open() && from.keys@.last() == key)
    }

    /// `self` came from `earlier` by pushing values: the key is the
    /// same, and where no value was pushed nothing has changed.
    pub open spec fn follows(&self, earlier: Self) -> bool {
        &&& self.wf()
        &&& self.key() == earlier.key()
        &&& self.pushes() == 0 ==> *self == earlier
    }

    /// Adds a value of the key; the first value opens the key in the
    /// builder. Values arrive in an order that does not decrease.
    pub fn push(&mut self, value: (V, R))
        requires
            old(self).wf(),
            lawful::<K>(),
            lawful::<V>(),
            old(self).open_values().len() > 0 ==> key_le(old(self).open_values().last().0, value.0),
        ensures
            final(self).follows(*old(self)),
            final(self).pending().is_none(),
            final(self).pushes() > 0,
            old(self).pushes() < usize::MAX ==> final(self).pushes() == old(self).pushes() + 1,
            final(self).open_values().len() > 0 ==> key_le(
                final(self).open_values().last().0,
                value.0,
            ),
            forall|k: K, v: V| #[trigger]
                final(self).builder().weight(k, v) == old(self).builder().weight(k, v).add_spec(
                    tuple_share((old(self).key(), value), k, v),
                ),
    {
        if self.pushes < usize::MAX {
            self.pushes += 1;
        }
        let mut waiting: Option<K> = None;
        core::mem::swap(&mut self.key, &mut waiting);
        match waiting {
            Some(key) => {
                proof {
                    let keys = self.builder.keys@;
                    if keys.len() > 1 {
                        assert(key_lt(keys[keys.len() - 2], keys[keys.len() - 1]));
                        lemma_lt_transitive(keys[keys.len() - 2], keys[keys.len() - 1], key);
                    }
                }
                self.builder.open_key(key);
            },
            None => {},
        }
        self.builder.push_value(value);
    }
}

impl<K: Ord + Clone, V: Ord + Clone, R: MonoidValue> OrderedBuilder<K, ColumnLayerBuilder<V, R>> {
    /// Values of `key` may be pushed: the key is behind the last key, or
    /// it is the open key.
    pub open spec fn accepts_key(&self, key: K) -> bool {
        ||| self.keys@.len() == 0
        ||| key_lt(self.keys@.last(), key)
        ||| (self.is_open() && self.keys@.last() == key)
    }

    /// Pushes a key and all of its values: `with` is handed the values of
    /// `key`, pushes to them and hands them back. The first value that
    /// is pushed opens the key; where `with` pushes nothing, the key is
    /// discarded and the builder is left as it was.
    ///
    /// Can be more efficient than repeatedly calling `push_tuple` because
    /// it needs no owned key for every value. A key whose values add up to
    /// nothing leaves no trace in the finished layer.
    pub fn with_key<F>(&mut self, key: K, with: F) where
        F: FnOnce(OrderedBuilderVals<K, ColumnLayerBuilder<V, R>>) -> OrderedBuilderVals<
            K,
            ColumnLayerBuilder<V, R>,
        >,

        requires
            old(self).wf(),
            lawful::<K>(),
            old(self).accepts_key(key),
            forall|vals: OrderedBuilderVals<K, ColumnLayerBuilder<V, R>>|
                vals.opens(*old(self), key) ==> call_requires(with, (vals,)),
            forall|
                vals: OrderedBuilderVals<K, ColumnLayerBuilder<V, R>>,
                out: OrderedBuilderVals<K, ColumnLayerBuilder<V, R>>,
            |
                vals.opens(*old(self), key) && call_ensures(with, (vals,), out) ==> out.follows(vals),
        ensures
            final(self).wf(),
            exists|
                vals: OrderedBuilderVals<K, ColumnLayerBuilder<V, R>>,
                out: OrderedBuilderVals<K, ColumnLayerBuilder<V, R>>,
            |
                {
                    &&& vals.opens(*old(self), key)
                    &&& call_ensures(with, (vals,), out)
                    &&& *final(self) == out.builder()
                    &&& out.pushes() == 0 ==> *final(self) == *old(self)
                    &&& out.pushes() > 0 ==> final(self).is_open() && final(self).keys@.last() == key
                },
    {
        let mut builder = OrderedBuilder::new();
        core::mem::swap(self, &mut builder);
        let n = builder.keys.len();
        let waiting = if n == 0 || builder.offs[n] != 0 || !same(&builder.keys[n - 1], &key) {
            Some(key)
        } else {
            None
        };
        proof {
            lemma_lt_irreflexive(key);
        }
        let vals = OrderedBuilderVals { builder, key: waiting, pushes: 0 };
        assert(vals.opens(*old(self), key));
        let out = with(vals);
        assert(call_ensures(with, (vals,), out));
        assert(out.follows(vals));
        *self = out.builder;
    }
}

/// Assembles an ordered layer from tuples that arrive in any order.
pub struct UnorderedBuilder<K, V, R> {
    pub vals: Vec<((K, V), R)>,
}

impl<K: Ord + Clone, V: Ord + Clone, R: MonoidValue> UnorderedBuilder<K, V, R> {
    /// A builder that holds nothing.
    pub fn new() -> (builder: Self)
        ensures
            builder.vals@.len() == 0,
    {
        UnorderedBuilder { vals: Vec::new() }
    }

    /// A builder that holds nothing, with room for `capacity` tuples.
    /// The capacity is a hint to the allocator.
    pub fn with_capacity(capacity: usize) -> (builder: Self)
        ensures
            builder.vals@.len() == 0,
    {
        UnorderedBuilder { vals: Vec::with_capacity(capacity) }
    }

    /// Makes room for `additional` more tuples: a hint to the allocator,
    /// which changes nothing that the builder holds.
    pub fn reserve_tuples(&mut self, additional: usize)
        ensures
            final(self).vals@ == old(self).vals@,
    {
        self.vals.reserve(additional);
    }

    /// The number of tuples pushed.
    pub fn tuples(&self) -> (n: usize)
        ensures
            n == self.vals@.len(),
    {
        self.vals.len()
    }

    /// The number of tuples pushed.
    pub fn boundary(&mut self) -> (n: usize)
        ensures
            n == old(self).vals@.len(),
            final(self).vals@ == old(self).vals@,
    {
        self.vals.len()
    }

    /// Adds a tuple.
    pub fn push_tuple(&mut self, tuple: (K, (V, R)))
        ensures
            final(self).vals@ == old(self).vals@.push(((tuple.0, tuple.1.0), tuple.1.1)),
    {
        let (key, (val, diff)) = tuple;
        self.vals.push(((key, val), diff));
    }

    /// Adds all tuples of `tuples`, in order.
    pub fn extend_tuples(&mut self, tuples: Vec<(K, (V, R))>)
        ensures
            final(self).vals@.len() == old(self).vals@.len() + tuples@.len(),
            final(self).vals@.subrange(0, old(self).vals@.len() as int) == old(self).vals@,
            forall|i: int|
                0 <= i < tuples@.len() ==> (#[trigger] final(self).vals@[old(self).vals@.len() + i])
                    == ((tuples@[i].0, tuples@[i].1.0), tuples@[i].1.1),
    {
        let ghost before = self.vals@;
        for tuple in it: tuples.into_iter()
            invariant
                it.seq() == tuples@,
                self.vals@.len() == before.len() + it.index(),
                self.vals@.subrange(0, before.len() as int) == before,
                forall|i: int|
                    0 <= i < it.index() ==> (#[trigger] self.vals@[before.len() + i]) == (
                        (tuples@[i].0, tuples@[i].1.0),
                        tuples@[i].1.1,
                    ),
        {
            let ghost held = self.vals@;
            self.push_tuple(tuple);
            proof {
                assert(self.vals@.subrange(0, before.len() as int) =~= held.subrange(
                    0,
                    before.len() as int,
                ));
            }
        }
    }

    /// The layer of the tuples pushed: each tuple `(k, v)` has the sum of
    /// the weights it was pushed with, and those whose sum is zero are not
    /// in it.
    pub fn done(self) -> (layer: OrderedLayer<K, ColumnLayer<V, R>>)
        requires
            lawful::<K>(),
            lawful::<V>(),
        ensures
            layer.wf(),
            forall|k: K, v: V| #[trigger] layer.weight(k, v) == weight_of(self.vals@, (k, v)),
    {
        let mut vals = self.vals;
        proof {
            lemma_pairs_lawful::<K, V>();
        }
        sort_by_key(&mut vals);
        let ghost sorted = vals@;
        let mut builder = OrderedBuilder::with_capacity(vals.len());
        proof {
            assert(sorted.subrange(0, 0) =~= Seq::<((K, V), R)>::empty());
        }
        for tuple in it: vals.into_iter()
            invariant
                lawful::<K>(),
                lawful::<V>(),
                lawful::<(K, V)>(),
                it.seq() == sorted,
                keys_sorted(sorted),
                builder.wf(),
                it.index() > 0 ==> builder.is_open() && builder.keys@.last() == sorted[it.index()
                    - 1].0.0 && (builder.vals.open().len() > 0 ==> key_le(
                    builder.vals.open().last().0,
                    sorted[it.index() - 1].0.1,
                )),
                it.index() == 0 ==> builder.keys@.len() == 0,
                forall|k: K, v: V| #[trigger]
                    builder.weight(k, v) == weight_of(sorted.subrange(0, it.index()), (k, v)),
        {
            let ghost at = it.index();
            let ghost was = builder;
            let ((key, val), diff) = tuple;
            proof {
                if at > 0 {
                    let prev = sorted[at - 1].0;
                    assert(key_le(prev, (key, val)));
                    lemma_pair_lt(prev, (key, val));
                    lemma_lt_irreflexive(key);
                    if prev.0 == key && builder.vals.open().len() > 0 {
                        lemma_le_transitive(builder.vals.open().last().0, prev.1, val);
                    }
                }
            }
            builder.push_tuple((key, (val, diff)));
            proof {
                assert(sorted.subrange(0, at + 1) =~= sorted.subrange(0, at).push(sorted[at]));
                assert forall|k: K, v: V| #[trigger]
                    builder.weight(k, v) == weight_of(sorted.subrange(0, at + 1), (k, v)) by {
                    lemma_weight_push(sorted.subrange(0, at), sorted[at], (k, v));
                    assert(was.weight(k, v) == weight_of(sorted.subrange(0, at), (k, v)));
                }
            }
        }
        let ghost filled = builder;
        let layer = builder.done();
        proof {
            assert(sorted.subrange(0, sorted.len() as int) =~= sorted);
            assert forall|k: K, v: V| #[trigger]
                layer.weight(k, v) == weight_of(self.vals@, (k, v)) by {
                assert(layer.weight(k, v) == filled.weight(k, v));
                lemma_weight_permutation(sorted, self.vals@, (k, v));
            }
        }
        layer
    }
}

/// Negating the layer below negates the weight of every tuple.
proof fn lemma_layer_negated<K: Ord, V: Ord, R: GroupValue>(
    keys: Seq<K>,
    offs: Seq<usize>,
    child: Seq<(V, R)>,
    opposite: Seq<(V, R)>,
)
    requires
        trie_wf(keys, offs, child),
        negated(child, opposite),
    ensures
        trie_wf(keys, offs, opposite),
        forall|k: K, v: V| #[trigger]
            weight_of(key_level(keys, offs, opposite, v), k) == weight_of(
                key_level(keys, offs, child, v),
                k,
            ).neg_spec(),
{
    assert forall|i: int| 0 <= i < keys.len() implies negated(
        span(offs, child, i),
        #[trigger] span(offs, opposite, i),
    ) by {
        assert(offs[i] < offs[i + 1]);
        assert(i + 1 < keys.len() ==> offs[i + 1] < offs[keys.len() as int]);
        let a = span(offs, child, i);
        let b = span(offs, opposite, i);
        assert forall|j: int| 0 <= j < a.len() implies (#[trigger] b[j]) == (
            a[j].0,
            a[j].1.neg_spec(),
        ) by {
            assert(b[j] == opposite[offs[i] + j]);
            assert(a[j] == child[offs[i] + j]);
        }
    }
    assert forall|i: int| 0 <= i < keys.len() implies consolidated(
        #[trigger] span(offs, opposite, i),
    ) by {
        assert(consolidated(span(offs, child, i)));
        lemma_consolidated_negated(span(offs, child, i), span(offs, opposite, i));
    }
    assert forall|k: K, v: V| #[trigger]
        weight_of(key_level(keys, offs, opposite, v), k) == weight_of(
            key_level(keys, offs, child, v),
            k,
        ).neg_spec() by {
        let was = key_level(keys, offs, child, v);
        let now = key_level(keys, offs, opposite, v);
        assert(negated(was, now)) by {
            assert forall|i: int| 0 <= i < was.len() implies (#[trigger] now[i]) == (
                was[i].0,
                was[i].1.neg_spec(),
            ) by {
                assert(negated(span(offs, child, i), span(offs, opposite, i)));
                lemma_weight_negated(span(offs, child, i), span(offs, opposite, i), v);
            }
        }
        lemma_weight_negated(was, now, k);
    }
}

impl<K: Ord + Clone, V: Ord + Clone, R: GroupValue> OrderedLayer<K, ColumnLayer<V, R>> {
    /// The layer with every weight replaced by its opposite.
    pub fn neg_by_ref(&self) -> (opposite: Self)
        requires
            self.wf(),
            faithful_clone::<K>(),
            faithful_clone::<V>(),
        ensures
            opposite.wf(),
            opposite.keys@ == self.keys@,
            forall|k: K, v: V| #[trigger] opposite.weight(k, v) == self.weight(k, v).neg_spec(),
    {
        let opposite = OrderedLayer {
            keys: duplicate_all(&self.keys),
            offs: duplicate_all(&self.offs),
            // Negation changes no key of the layer below, so the offsets stay valid.
            vals: self.vals.neg_by_ref(),
        };
        proof {
            lemma_layer_negated(self.keys@, self.offs@, self.vals.entries(), opposite.vals.entries());
        }
        opposite
    }

    /// Replaces every weight by its opposite.
    pub fn neg(self) -> (opposite: Self)
        requires
            self.wf(),
        ensures
            opposite.wf(),
            opposite.keys@ == self.keys@,
            forall|k: K, v: V| #[trigger] opposite.weight(k, v) == self.weight(k, v).neg_spec(),
    {
        let opposite = OrderedLayer {
            keys: self.keys,
            offs: self.offs,
            // Negation changes no key of the layer below, so the offsets stay valid.
            vals: self.vals.neg(),
        };
        proof {
            lemma_layer_negated(self.keys@, self.offs@, self.vals.entries(), opposite.vals.entries());
        }
        opposite
    }
}

/// Appending a key behind the keys of a trie, with a consolidated run of
/// values behind the layer below, gives a trie again; seen from any
/// value, it has one key more.
pub proof fn lemma_trie_push<K: Ord, V: Ord, R: MonoidValue>(
    keys: Seq<K>,
    offs: Seq<usize>,
    child: Seq<(V, R)>,
    key: K,
    run: Seq<(V, R)>,
)
    requires
        lawful::<K>(),
        trie_wf(keys, offs, child),
        consolidated(run),
        run.len() > 0,
        child.len() + run.len() <= usize::MAX,
        keys.len() > 0 ==> key_lt(keys.last(), key),
    ensures
        trie_wf(keys.push(key), offs.push((child.len() + run.len()) as usize), child + run),
        forall|v: V|
            #[trigger] key_level(
                keys.push(key),
                offs.push((child.len() + run.len()) as usize),
                child + run,
                v,
            ) == key_level(keys, offs, child, v).push((key, weight_of(run, v))),
{
    let n = keys.len() as int;
    let keys2 = keys.push(key);
    let offs2 = offs.push((child.len() + run.len()) as usize);
    let child2 = child + run;
    assert forall|i: int, j: int| 0 <= i < j < keys2.len() implies key_lt(keys2[i], keys2[j]) by {
        if j < n {
            assert(key_lt(keys[i], keys[j]));
        } else if i < n - 1 {
            assert(key_lt(keys[i], keys[n - 1]));
            lemma_lt_transitive(keys[i], keys[n - 1], key);
        }
    }
    assert forall|i: int, j: int| 0 <= i < j < offs2.len() implies offs2[i] < offs2[j] by {
        if j <= n {
            assert(offs[i] < offs[j]);
        } else if i < n {
            assert(offs[i] < offs[n]);
        }
    }
    assert forall|i: int| 0 <= i < keys2.len() implies span(offs2, child2, i) == (if i < n {
        span(offs, child, i)
    } else {
        run
    }) by {
        if i < n {
            assert(offs[i] < offs[i + 1]);
            assert(i + 1 < n ==> offs[i + 1] < offs[n]);
            assert(span(offs2, child2, i) =~= span(offs, child, i));
        } else {
            assert(span(offs2, child2, i) =~= run);
        }
    }
    assert forall|i: int| 0 <= i < keys2.len() implies consolidated(
        #[trigger] span(offs2, child2, i),
    ) by {
        if i < n {
            assert(consolidated(span(offs, child, i)));
        }
    }
    assert forall|v: V|
        #[trigger] key_level(keys2, offs2, child2, v) == key_level(keys, offs, child, v).push(
            (key, weight_of(run, v)),
        ) by {
        let now = key_level(keys2, offs2, child2, v);
        let want = key_level(keys, offs, child, v).push((key, weight_of(run, v)));
        assert forall|i: int| 0 <= i < now.len() implies now[i] == want[i] by {
            assert(span(offs2, child2, i) == (if i < n {
                span(offs, child, i)
            } else {
                run
            }));
        }
        assert(now =~= want);
    }
}

/// What has been read of a layer, seen from the tuple `(k, v)`: the weight
/// of the tuple among the first `keys` keys, and, where the key behind
/// them is `k`, among the first `vals` values of that key.
pub open spec fn read_progress<K: Ord + Clone, V: Ord + Clone, R: MonoidValue>(
    layer: OrderedLayer<K, ColumnLayer<V, R>>,
    keys: int,
    vals: int,
    k: K,
    v: V,
) -> R {
    weight_of(layer.level(v).subrange(0, keys), k).add_spec(
        if keys < layer.keys@.len() && layer.keys@[keys] == k {
            weight_of(span(layer.offs@, layer.vals.entries(), keys).subrange(0, vals), v)
        } else {
            R::zero_spec()
        },
    )
}

impl<K: Ord + Clone, V: Ord + Clone, R: MonoidValue> OrderedLayer<K, ColumnLayer<V, R>> {
    /// The tuples of the layer as a cursor reads them, key by key and
    /// value by value: the consolidated sequence of the tuples, in which
    /// each tuple has the weight that it has in the layer.
    pub fn to_tuples(&self) -> (tuples: Vec<((K, V), R)>)
        requires
            self.wf(),
            lawful::<K>(),
            lawful::<V>(),
            faithful_clone::<K>(),
            faithful_clone::<V>(),
        ensures
            consolidated(tuples@),
            tuples@.len() == self.vals.entries().len(),
            forall|k: K, v: V| #[trigger] weight_of(tuples@, (k, v)) == self.weight(k, v),
    {
        let ghost child = self.vals.entries();
        let mut tuples: Vec<((K, V), R)> = Vec::with_capacity(self.vals.keys.len());
        let mut cursor = self.cursor();
        proof {
            lemma_pairs_lawful::<K, V>();
            assert forall|k: K, v: V| #[trigger]
                weight_of(tuples@, (k, v)) == read_progress(*self, 0, 0, k, v) by {
                assert(self.level(v).subrange(0, 0) =~= Seq::<(K, R)>::empty());
                if self.keys@.len() > 0 {
                    assert(span(self.offs@, child, 0).subrange(0, 0) =~= Seq::<(V, R)>::empty());
                }
                R::lemma_add_zero(R::zero_spec());
            }
        }
        while cursor.valid()
            invariant
                lawful::<K>(),
                lawful::<V>(),
                lawful::<(K, V)>(),
                faithful_clone::<K>(),
                faithful_clone::<V>(),
                self.wf(),
                child == self.vals.entries(),
                cursor.wf(),
                cursor.storage == self,
                cursor.bounds.0 == 0,
                cursor.bounds.1 == self.keys@.len(),
                cursor.pos < cursor.bounds.1 ==> cursor.child.pos == self.offs@[cursor.pos as int],
                consolidated(tuples@),
                tuples@.len() == self.offs@[cursor.pos as int],
                tuples@.len() > 0 ==> cursor.pos > 0 && tuples@.last().0.0 == self.keys@[cursor.pos
                    - 1],
                forall|k: K, v: V| #[trigger]
                    weight_of(tuples@, (k, v)) == read_progress(*self, cursor.pos as int, 0, k, v),
            decreases cursor.bounds.1 - cursor.pos,
        {
            let ghost at = cursor.pos as int;
            let ghost first = self.offs@[at] as int;
            let ghost run = span(self.offs@, child, at);
            proof {
                assert(self.offs@[at] < self.offs@[at + 1]);
                assert(consolidated(run));
            }
            while cursor.child.valid()
                invariant
                    lawful::<K>(),
                    lawful::<V>(),
                    lawful::<(K, V)>(),
                    faithful_clone::<K>(),
                    faithful_clone::<V>(),
                    self.wf(),
                    child == self.vals.entries(),
                    cursor.wf(),
                    cursor.storage == self,
                    cursor.pos == at,
                    cursor.bounds.0 == 0,
                    cursor.bounds.1 == self.keys@.len(),
                    at < self.keys@.len(),
                    first == self.offs@[at],
                    run == span(self.offs@, child, at),
                    consolidated(run),
                    first <= cursor.child.pos <= self.offs@[at + 1],
                    consolidated(tuples@),
                    tuples@.len() == cursor.child.pos,
                    cursor.child.pos == first && tuples@.len() > 0 ==> at > 0
                        && tuples@.last().0.0 == self.keys@[at - 1],
                    cursor.child.pos > first ==> tuples@.len() > 0 && tuples@.last().0 == (
                        self.keys@[at],
                        child[cursor.child.pos - 1].0,
                    ),
                    forall|k: K, v: V| #[trigger]
                        weight_of(tuples@, (k, v)) == read_progress(
                            *self,
                            at,
                            cursor.child.pos - first,
                            k,
                            v,
                        ),
                decreases self.offs@[at + 1] - cursor.child.pos,
            {
                let ghost held = tuples@;
                let ghost j = cursor.child.pos - first;
                let ghost tuple = child[cursor.child.pos as int];
                let key = duplicate(cursor.key());
                let val = duplicate(cursor.child.current_key());
                let weight = clone_weight(cursor.child.current_diff());
                proof {
                    assert(run[j] == tuple);
                    assert(tuple == (val, weight));
                    assert(weight != R::zero_spec());
                    if held.len() > 0 {
                        lemma_pair_lt(held.last().0, (key, val));
                        if j == 0 {
                            assert(key_lt(self.keys@[at - 1], self.keys@[at]));
                        } else {
                            assert(run[j - 1] == child[cursor.child.pos - 1]);
                            assert(key_lt(run[j - 1].0, run[j].0));
                        }
                    }
                    lemma_consolidated_push(held, ((key, val), weight));
                }
                tuples.push(((key, val), weight));
                cursor.child.step();
                proof {
                    assert(run.subrange(0, j + 1) =~= run.subrange(0, j).push(tuple));
                    assert forall|k: K, v: V| #[trigger]
                        weight_of(tuples@, (k, v)) == read_progress(*self, at, j + 1, k, v) by {
                        let base = weight_of(self.level(v).subrange(0, at), k);
                        assert(weight_of(held, (k, v)) == read_progress(*self, at, j, k, v));
                        lemma_weight_push(held, ((key, val), weight), (k, v));
                        lemma_weight_push(run.subrange(0, j), tuple, v);
                        if k == self.keys@[at] {
                            R::lemma_add_associative(
                                base,
                                weight_of(run.subrange(0, j), v),
                                share(tuple, v),
                            );
                        } else {
                            R::lemma_add_zero(base.add_spec(R::zero_spec()));
                        }
                    }
                }
            }
            proof {
                assert(cursor.child.pos - first == run.len());
            }
            cursor.step();
            proof {
                assert forall|k: K, v: V| #[trigger]
                    weight_of(tuples@, (k, v)) == read_progress(*self, at + 1, 0, k, v) by {
                    let level = self.level(v);
                    assert(run.subrange(0, run.len() as int) =~= run);
                    assert(level.subrange(0, at + 1) =~= level.subrange(0, at).push(level[at]));
                    lemma_weight_push(level.subrange(0, at), level[at], k);
                    if at + 1 < self.keys@.len() {
                        assert(span(self.offs@, child, at + 1).subrange(0, 0) =~= Seq::<
                            (V, R),
                        >::empty());
                    }
                    R::lemma_add_zero(weight_of(level.subrange(0, at + 1), k));
                    assert(weight_of(tuples@, (k, v)) == read_progress(
                        *self,
                        at,
                        run.len() as int,
                        k,
                        v,
                    ));
                }
            }
        }
        proof {
            assert forall|k: K, v: V| #[trigger] weight_of(tuples@, (k, v)) == self.weight(k, v) by {
                let level = self.level(v);
                assert(level.subrange(0, self.keys@.len() as int) =~= level);
                R::lemma_add_zero(weight_of(level, k));
                assert(weight_of(tuples@, (k, v)) == read_progress(
                    *self,
                    self.keys@.len() as int,
                    0,
                    k,
                    v,
                ));
            }
        }
        tuples
    }
}

/// In a layer with distinct keys, a key weighs what its own run weighs.
pub proof fn lemma_level_at<K: Ord, R: MonoidValue>(level: Seq<(K, R)>, keys: Seq<K>, i: int)
    requires
        lawful::<K>(),
        strictly_increasing(keys),
        level.len() == keys.len(),
        forall|j: int| 0 <= j < keys.len() ==> (#[trigger] level[j]).0 == keys[j],
        0 <= i < keys.len(),
    ensures
        weight_of(level, keys[i]) == level[i].1,
{
    assert forall|a: int, b: int| 0 <= a < b < level.len() implies key_lt(level[a].0, level[b].0) by {
        assert(key_lt(keys[a], keys[b]));
    }
    lemma_weight_at(level, i);
}

/// A key that is not among the keys of a layer weighs nothing in it.
pub proof fn lemma_level_absent<K: Ord, R: MonoidValue>(level: Seq<(K, R)>, keys: Seq<K>, k: K)
    requires
        level.len() == keys.len(),
        forall|j: int| 0 <= j < keys.len() ==> (#[trigger] level[j]).0 == keys[j],
        forall|j: int| 0 <= j < keys.len() ==> (#[trigger] keys[j]) != k,
    ensures
        weight_of(level, k) == R::zero_spec(),
{
    assert forall|j: int| 0 <= j < level.len() implies (#[trigger] level[j]).0 != k by {
        assert(keys[j] != k);
    }
    lemma_weight_absent(level, k);
}

impl<K: Ord + Clone, V: Ord + Clone, R: MonoidValue> OrderedLayer<K, ColumnLayer<V, R>> {
    /// Every key of a layer has a value with a weight other than zero:
    /// the first of its values, with the weight that stands with it.
    pub proof fn lemma_key_weighs(&self, i: int)
        requires
            self.wf(),
            lawful::<K>(),
            lawful::<V>(),
            0 <= i < self.keys@.len(),
        ensures
            self.weight(self.keys@[i], span(self.offs@, self.vals.entries(), i)[0].0) == span(
                self.offs@,
                self.vals.entries(),
                i,
            )[0].1,
            span(self.offs@, self.vals.entries(), i)[0].1 != R::zero_spec(),
    {
        let run = span(self.offs@, self.vals.entries(), i);
        assert(self.offs@[i] < self.offs@[i + 1]);
        assert(consolidated(run));
        let v = run[0].0;
        lemma_weight_at(run, 0);
        lemma_level_at(self.level(v), self.keys@, i);
    }

    /// Every tuple of the layer below counts: the value at the place `p`
    /// has under its key the weight that stands with it, which is not
    /// zero.
    pub proof fn lemma_entry_weighs(&self, p: int) -> (i: int)
        requires
            self.wf(),
            lawful::<K>(),
            lawful::<V>(),
            0 <= p < self.vals.entries().len(),
        ensures
            0 <= i < self.keys@.len(),
            self.weight(self.keys@[i], self.vals.entries()[p].0) == self.vals.entries()[p].1,
            self.vals.entries()[p].1 != R::zero_spec(),
    {
        let n = self.keys@.len() as int;
        let i = lemma_offset_covers(self.offs@, p, n);
        let run = span(self.offs@, self.vals.entries(), i);
        assert(self.offs@[i] < self.offs@[i + 1]);
        assert(i + 1 < n ==> self.offs@[i + 1] < self.offs@[n]);
        assert(consolidated(run));
        let j = p - self.offs@[i];
        assert(run[j] == self.vals.entries()[p]);
        lemma_weight_at(run, j);
        lemma_level_at(self.level(run[j].0), self.keys@, i);
        i
    }

    /// A value that has a weight other than zero under a key stands in
    /// the layer below.
    pub proof fn lemma_weighty_entry(&self, k: K, v: V) -> (p: int)
        requires
            self.wf(),
            lawful::<K>(),
            self.weight(k, v) != R::zero_spec(),
        ensures
            0 <= p < self.vals.entries().len(),
            self.vals.entries()[p].0 == v,
    {
        self.lemma_weighty_key(k, v);
        let i = choose|i: int| 0 <= i < self.keys@.len() && #[trigger] self.keys@[i] == k;
        let n = self.keys@.len() as int;
        let run = span(self.offs@, self.vals.entries(), i);
        lemma_level_at(self.level(v), self.keys@, i);
        assert(weight_of(run, v) != R::zero_spec());
        if forall|j: int| 0 <= j < run.len() ==> (#[trigger] run[j]).0 != v {
            lemma_weight_absent(run, v);
        }
        let j = choose|j: int| 0 <= j < run.len() && (#[trigger] run[j]).0 == v;
        assert(self.offs@[i] < self.offs@[i + 1]);
        assert(i + 1 < n ==> self.offs@[i + 1] < self.offs@[n]);
        assert(run[j] == self.vals.entries()[self.offs@[i] + j]);
        self.offs@[i] + j
    }

    /// A key under which a value has a weight other than zero is a key of
    /// the layer.
    pub proof fn lemma_weighty_key(&self, k: K, v: V)
        requires
            self.wf(),
            self.weight(k, v) != R::zero_spec(),
        ensures
            exists|i: int| 0 <= i < self.keys@.len() && #[trigger] self.keys@[i] == k,
    {
        if !exists|i: int| 0 <= i < self.keys@.len() && #[trigger] self.keys@[i] == k {
            lemma_level_absent(self.level(v), self.keys@, k);
        }
    }
}

/// Each key of a layer with the weight of the first of its values.
pub open spec fn heads<K, V, R>(keys: Seq<K>, offs: Seq<usize>, child: Seq<(V, R)>) -> Seq<(K, R)> {
    Seq::new(keys.len(), |i: int| (keys[i], span(offs, child, i)[0].1))
}

/// Where every tuple weighs the same in two layers, the key at `i` of
/// the one is a key of the other, with the same values under it.
proof fn lemma_same_span<K: Ord + Clone, V: Ord + Clone, R: MonoidValue>(
    a: OrderedLayer<K, ColumnLayer<V, R>>,
    b: OrderedLayer<K, ColumnLayer<V, R>>,
    i: int,
) -> (j: int)
    requires
        lawful::<K>(),
        lawful::<V>(),
        a.wf(),
        b.wf(),
        forall|k: K, v: V| #[trigger] a.weight(k, v) == b.weight(k, v),
        0 <= i < a.keys@.len(),
    ensures
        0 <= j < b.keys@.len(),
        b.keys@[j] == a.keys@[i],
        span(b.offs@, b.vals.entries(), j) == span(a.offs@, a.vals.entries(), i),
{
    let k = a.keys@[i];
    let run_a = span(a.offs@, a.vals.entries(), i);
    a.lemma_key_weighs(i);
    assert(b.weight(k, run_a[0].0) == a.weight(k, run_a[0].0));
    b.lemma_weighty_key(k, run_a[0].0);
    let j = choose|j: int| 0 <= j < b.keys@.len() && #[trigger] b.keys@[j] == k;
    let run_b = span(b.offs@, b.vals.entries(), j);
    assert forall|v: V| #[trigger] weight_of(run_a, v) == weight_of(run_b, v) by {
        lemma_level_at(a.level(v), a.keys@, i);
        lemma_level_at(b.level(v), b.keys@, j);
        assert(a.weight(k, v) == b.weight(k, v));
    }
    assert(consolidated(run_a));
    assert(consolidated(run_b));
    lemma_consolidated_unique(run_a, run_b);
    j
}

/// A position below the offset at `m` lies in the range of a key before
/// `m`.
proof fn lemma_offset_covers(offs: Seq<usize>, p: int, m: int) -> (i: int)
    requires
        0 < m < offs.len(),
        offs[0] <= p < offs[m],
    ensures
        0 <= i < m,
        offs[i] <= p < offs[i + 1],
    decreases m,
{
    if p >= offs[m - 1] {
        m - 1
    } else {
        lemma_offset_covers(offs, p, m - 1)
    }
}

/// A Z-set has one layer only: two layers in which every tuple has the
/// same weight have the same keys, the same offsets and the same values
/// and weights below.
pub proof fn lemma_layer_unique<K: Ord + Clone, V: Ord + Clone, R: MonoidValue>(
    a: OrderedLayer<K, ColumnLayer<V, R>>,
    b: OrderedLayer<K, ColumnLayer<V, R>>,
)
    requires
        lawful::<K>(),
        lawful::<V>(),
        a.wf(),
        b.wf(),
        forall|k: K, v: V| #[trigger] a.weight(k, v) == b.weight(k, v),
    ensures
        same_columns(a, b),
{
    let child_a = a.vals.entries();
    let child_b = b.vals.entries();
    let heads_a = heads(a.keys@, a.offs@, child_a);
    let heads_b = heads(b.keys@, b.offs@, child_b);
    assert forall|k: K, v: V| #[trigger] b.weight(k, v) == a.weight(k, v) by {
        assert(a.weight(k, v) == b.weight(k, v));
    }
    assert(consolidated(heads_a)) by {
        assert forall|i: int, j: int| 0 <= i < j < heads_a.len() implies key_lt(
            heads_a[i].0,
            heads_a[j].0,
        ) by {
            assert(key_lt(a.keys@[i], a.keys@[j]));
        }
        assert forall|i: int| 0 <= i < heads_a.len() implies (#[trigger] heads_a[i]).1
            != R::zero_spec() by {
            a.lemma_key_weighs(i);
        }
    }
    assert(consolidated(heads_b)) by {
        assert forall|i: int, j: int| 0 <= i < j < heads_b.len() implies key_lt(
            heads_b[i].0,
            heads_b[j].0,
        ) by {
            assert(key_lt(b.keys@[i], b.keys@[j]));
        }
        assert forall|i: int| 0 <= i < heads_b.len() implies (#[trigger] heads_b[i]).1
            != R::zero_spec() by {
            b.lemma_key_weighs(i);
        }
    }
    assert forall|k: K| #[trigger] weight_of(heads_a, k) == weight_of(heads_b, k) by {
        if exists|i: int| 0 <= i < a.keys@.len() && #[trigger] a.keys@[i] == k {
            let i = choose|i: int| 0 <= i < a.keys@.len() && #[trigger] a.keys@[i] == k;
            let j = lemma_same_span(a, b, i);
            lemma_weight_at(heads_a, i);
            lemma_weight_at(heads_b, j);
        } else if exists|j: int| 0 <= j < b.keys@.len() && #[trigger] b.keys@[j] == k {
            let j = choose|j: int| 0 <= j < b.keys@.len() && #[trigger] b.keys@[j] == k;
            let i = lemma_same_span(b, a, j);
            assert(a.keys@[i] == k);
        } else {
            assert forall|i: int| 0 <= i < heads_a.len() implies (#[trigger] heads_a[i]).0 != k by {
                assert(a.keys@[i] != k);
            }
            assert forall|j: int| 0 <= j < heads_b.len() implies (#[trigger] heads_b[j]).0 != k by {
                assert(b.keys@[j] != k);
            }
            lemma_weight_absent(heads_a, k);
            lemma_weight_absent(heads_b, k);
        }
    }
    lemma_consolidated_unique(heads_a, heads_b);
    let n = a.keys@.len() as int;
    assert(a.keys@ =~= b.keys@) by {
        assert forall|i: int| 0 <= i < n implies a.keys@[i] == b.keys@[i] by {
            assert(heads_a[i].0 == heads_b[i].0);
        }
    }
    assert forall|i: int| 0 <= i < n implies span(a.offs@, child_a, i) == span(
        b.offs@,
        child_b,
        i,
    ) by {
        let j = lemma_same_span(a, b, i);
        if j < i {
            assert(key_lt(b.keys@[j], b.keys@[i]));
            lemma_lt_irreflexive(b.keys@[i]);
        } else if i < j {
            assert(key_lt(b.keys@[i], b.keys@[j]));
            lemma_lt_irreflexive(b.keys@[i]);
        }
    }
    assert forall|m: int| 0 <= m <= n implies a.offs@[m] == b.offs@[m] by {
        lemma_offsets_agree(a.offs@, child_a, b.offs@, child_b, n, m);
    }
    assert(a.offs@ =~= b.offs@);
    assert(child_a.len() == child_b.len());
    assert forall|p: int| 0 <= p < child_a.len() implies child_a[p] == child_b[p] by {
        let i = lemma_offset_covers(a.offs@, p, n);
        assert(a.offs@[i] < a.offs@[i + 1]);
        assert(i + 1 < n ==> a.offs@[i + 1] < a.offs@[n]);
        assert(span(a.offs@, child_a, i)[p - a.offs@[i]] == child_a[p]);
        assert(span(b.offs@, child_b, i)[p - b.offs@[i]] == child_b[p]);
    }
    assert(a.vals.keys@ =~= b.vals.keys@) by {
        assert forall|p: int| 0 <= p < a.vals.keys@.len() implies a.vals.keys@[p]
            == b.vals.keys@[p] by {
            assert(child_a[p].0 == child_b[p].0);
        }
    }
    assert(a.vals.diffs@ =~= b.vals.diffs@) by {
        assert forall|p: int| 0 <= p < a.vals.diffs@.len() implies a.vals.diffs@[p]
            == b.vals.diffs@[p] by {
            assert(child_a[p].1 == child_b[p].1);
        }
    }
}

/// Where two layers have the same values under each key, their offsets
/// are the same.
proof fn lemma_offsets_agree<V, R>(
    offs_a: Seq<usize>,
    child_a: Seq<(V, R)>,
    offs_b: Seq<usize>,
    child_b: Seq<(V, R)>,
    n: int,
    m: int,
)
    requires
        offs_a.len() == n + 1,
        offs_b.len() == n + 1,
        offs_a[0] == offs_b[0],
        offs_a[n] == child_a.len(),
        offs_b[n] == child_b.len(),
        forall|i: int, j: int| 0 <= i < j < offs_a.len() ==> offs_a[i] < offs_a[j],
        forall|i: int, j: int| 0 <= i < j < offs_b.len() ==> offs_b[i] < offs_b[j],
        forall|i: int| 0 <= i < n ==> span(offs_a, child_a, i) == span(offs_b, child_b, i),
        0 <= m <= n,
    ensures
        offs_a[m] == offs_b[m],
    decreases m,
{
    if m > 0 {
        lemma_offsets_agree(offs_a, child_a, offs_b, child_b, n, m - 1);
        assert(offs_a[m - 1] < offs_a[m]);
        assert(offs_b[m - 1] < offs_b[m]);
        assert(m < n ==> offs_a[m] < offs_a[n]);
        assert(m < n ==> offs_b[m] < offs_b[n]);
        assert(span(offs_a, child_a, m - 1).len() == offs_a[m] - offs_a[m - 1]);
        assert(span(offs_b, child_b, m - 1).len() == offs_b[m] - offs_b[m - 1]);
    }
}

/// The two layers have the same keys, the same offsets and the same
/// values and weights below.
pub open spec fn same_columns<K, V, R>(
    a: OrderedLayer<K, ColumnLayer<V, R>>,
    b: OrderedLayer<K, ColumnLayer<V, R>>,
) -> bool {
    &&& a.keys@ == b.keys@
    &&& a.offs@ == b.offs@
    &&& a.vals.keys@ == b.vals.keys@
    &&& a.vals.diffs@ == b.vals.diffs@
}

/// Merging is commutative: a layer that holds the sum of `a` and `b` holds
/// what a layer holds that is the sum of `b` and `a`, and where both are
/// well-formed they are the same, column by column.
pub proof fn lemma_merge_commutative<K: Ord + Clone, V: Ord + Clone, R: MonoidValue>(
    a: OrderedLayer<K, ColumnLayer<V, R>>,
    b: OrderedLayer<K, ColumnLayer<V, R>>,
    ab: OrderedLayer<K, ColumnLayer<V, R>>,
    ba: OrderedLayer<K, ColumnLayer<V, R>>,
)
    requires
        forall|k: K, v: V| #[trigger] ab.weight(k, v) == a.weight(k, v).add_spec(b.weight(k, v)),
        forall|k: K, v: V| #[trigger] ba.weight(k, v) == b.weight(k, v).add_spec(a.weight(k, v)),
    ensures
        forall|k: K, v: V| #[trigger] ab.weight(k, v) == ba.weight(k, v),
        lawful::<K>() && lawful::<V>() && ab.wf() && ba.wf() ==> same_columns(ab, ba),
{
    assert forall|k: K, v: V| #[trigger] ab.weight(k, v) == ba.weight(k, v) by {
        R::lemma_add_commutative(a.weight(k, v), b.weight(k, v));
    }
    if lawful::<K>() && lawful::<V>() && ab.wf() && ba.wf() {
        lemma_layer_unique(ab, ba);
    }
}

/// The empty layer is the identity of merging: a layer that holds the sum
/// of `a` and a layer without keys holds what `a` holds, and where both
/// are well-formed it is the same as `a`, column by column.
pub proof fn lemma_merge_identity<K: Ord + Clone, V: Ord + Clone, R: MonoidValue>(
    a: OrderedLayer<K, ColumnLayer<V, R>>,
    empty: OrderedLayer<K, ColumnLayer<V, R>>,
    merged: OrderedLayer<K, ColumnLayer<V, R>>,
)
    requires
        empty.keys@.len() == 0,
        forall|k: K, v: V| #[trigger]
            merged.weight(k, v) == a.weight(k, v).add_spec(empty.weight(k, v)),
    ensures
        forall|k: K, v: V| #[trigger] merged.weight(k, v) == a.weight(k, v),
        lawful::<K>() && lawful::<V>() && merged.wf() && a.wf() ==> same_columns(merged, a),
{
    assert forall|k: K, v: V| #[trigger] merged.weight(k, v) == a.weight(k, v) by {
        assert(empty.level(v) =~= Seq::<(K, R)>::empty());
        R::lemma_add_zero(a.weight(k, v));
    }
    if lawful::<K>() && lawful::<V>() && merged.wf() && a.wf() {
        lemma_layer_unique(merged, a);
    }
}

impl<K: Ord + Clone, V: Ord + Clone, R: MonoidValue> OrderedLayer<K, ColumnLayer<V, R>> {
    /// The number of keys.
    pub fn num_entries_shallow(&self) -> (n: usize)
        ensures
            n == self.keys@.len(),
    {
        self.keys()
    }

    /// The number of tuples.
    pub fn num_entries_deep(&self) -> (n: usize)
        requires
            self.wf(),
        ensures
            n == self.vals.entries().len(),
    {
        self.tuples()
    }

    /// The sum of two layers that are given up for it. An empty layer is
    /// not merged: the other one is the sum.
    pub fn add(self, rhs: Self) -> (sum: Self)
        requires
            self.wf(),
            rhs.wf(),
            lawful::<K>(),
            lawful::<V>(),
            faithful_clone::<K>(),
            faithful_clone::<V>(),
        ensures
            sum.wf(),
            forall|k: K, v: V| #[trigger]
                sum.weight(k, v) == self.weight(k, v).add_spec(rhs.weight(k, v)),
            self.keys@.len() == 0 ==> sum == rhs,
            self.keys@.len() != 0 && rhs.keys@.len() == 0 ==> sum == self,
    {
        if self.is_empty() {
            proof {
                assert forall|k: K, v: V| #[trigger]
                    rhs.weight(k, v) == self.weight(k, v).add_spec(rhs.weight(k, v)) by {
                    assert(self.level(v) =~= Seq::<(K, R)>::empty());
                    lemma_zero_add(rhs.weight(k, v));
                }
            }
            rhs
        } else if rhs.is_empty() {
            proof {
                assert forall|k: K, v: V| #[trigger]
                    self.weight(k, v) == self.weight(k, v).add_spec(rhs.weight(k, v)) by {
                    assert(rhs.level(v) =~= Seq::<(K, R)>::empty());
                    R::lemma_add_zero(self.weight(k, v));
                }
            }
            self
        } else {
            self.merge(&rhs)
        }
    }

    /// Adds `rhs`, which is given up for it, to the layer.
    pub fn add_assign(&mut self, rhs: Self)
        requires
            old(self).wf(),
            rhs.wf(),
            lawful::<K>(),
            lawful::<V>(),
            faithful_clone::<K>(),
            faithful_clone::<V>(),
        ensures
            final(self).wf(),
            forall|k: K, v: V| #[trigger]
                final(self).weight(k, v) == old(self).weight(k, v).add_spec(rhs.weight(k, v)),
    {
        if self.is_empty() {
            proof {
                assert forall|k: K, v: V| #[trigger]
                    rhs.weight(k, v) == self.weight(k, v).add_spec(rhs.weight(k, v)) by {
                    assert(self.level(v) =~= Seq::<(K, R)>::empty());
                    lemma_zero_add(rhs.weight(k, v));
                }
            }
            *self = rhs;
        } else if !rhs.is_empty() {
            *self = self.merge(&rhs);
        } else {
            proof {
                assert forall|k: K, v: V| #[trigger]
                    self.weight(k, v) == self.weight(k, v).add_spec(rhs.weight(k, v)) by {
                    assert(rhs.level(v) =~= Seq::<(K, R)>::empty());
                    R::lemma_add_zero(self.weight(k, v));
                }
            }
        }
    }

    /// Adds `other` to the layer.
    pub fn add_assign_by_ref(&mut self, other: &Self)
        requires
            old(self).wf(),
            other.wf(),
            lawful::<K>(),
            lawful::<V>(),
            faithful_clone::<K>(),
            faithful_clone::<V>(),
        ensures
            final(self).wf(),
            forall|k: K, v: V| #[trigger]
                final(self).weight(k, v) == old(self).weight(k, v).add_spec(other.weight(k, v)),
    {
        if !other.is_empty() {
            *self = self.merge(other);
        } else {
            proof {
                assert forall|k: K, v: V| #[trigger]
                    self.weight(k, v) == self.weight(k, v).add_spec(other.weight(k, v)) by {
                    assert(other.level(v) =~= Seq::<(K, R)>::empty());
                    R::lemma_add_zero(self.weight(k, v));
                }
            }
        }
    }

    /// The sum of two layers.
    pub fn add_by_ref(&self, rhs: &Self) -> (sum: Self)
        requires
            self.wf(),
            rhs.wf(),
            lawful::<K>(),
            lawful::<V>(),
            faithful_clone::<K>(),
            faithful_clone::<V>(),
        ensures
            sum.wf(),
            forall|k: K, v: V| #[trigger]
                sum.weight(k, v) == self.weight(k, v).add_spec(rhs.weight(k, v)),
    {
        self.merge(rhs)
    }
}

/// A layer gives back what was pushed: where a layer holds what was
/// pushed to its builder, the tuples read from the layer are the
/// consolidated form of the tuples pushed, which is the only one.
pub proof fn lemma_layer_round_trip<K: Ord + Clone, V: Ord + Clone, R: MonoidValue>(
    pushed: Seq<((K, V), R)>,
    layer: OrderedLayer<K, ColumnLayer<V, R>>,
    read: Seq<((K, V), R)>,
    other: Seq<((K, V), R)>,
)
    requires
        lawful::<K>(),
        lawful::<V>(),
        forall|k: K, v: V| #[trigger] layer.weight(k, v) == weight_of(pushed, (k, v)),
        consolidated(read),
        forall|k: K, v: V| #[trigger] weight_of(read, (k, v)) == layer.weight(k, v),
        consolidated(other),
        same_weights(other, pushed),
    ensures
        same_weights(read, pushed),
        other == read,
{
    lemma_pairs_lawful::<K, V>();
    assert forall|kv: (K, V)| #[trigger] weight_of(read, kv) == weight_of(pushed, kv) by {
        assert(weight_of(read, (kv.0, kv.1)) == layer.weight(kv.0, kv.1));
    }
    assert forall|kv: (K, V)| #[trigger] weight_of(other, kv) == weight_of(read, kv) by {
        assert(weight_of(other, kv) == weight_of(pushed, kv));
    }
    lemma_consolidated_unique(other, read);
}

} // verus!
