//! The leaf of every trie: two parallel columns of keys and weights.

use vstd::prelude::*;
use crate::algebra::GroupValue;
use crate::algebra::MonoidValue;
use crate::algebra::clone_weight;
use crate::order::duplicate;
use crate::order::duplicate_all;
use crate::order::faithful_clone;
use crate::order::key_le;
use crate::order::key_lt;
use crate::order::lawful;
use crate::order::less;
use crate::order::same;
use crate::order::lemma_lt_total;
use crate::order::lemma_lt_transitive;
use crate::zset::consolidated;
use crate::zset::pairs;
use crate::zset::share;
use crate::zset::weight_of;
use crate::zset::lemma_weight_push;
use crate::zset::lemma_consolidated_subrange;
use crate::zset::lemma_consolidated_concat;
use crate::zset::lemma_merge_left;
use crate::zset::lemma_merge_right;
use crate::zset::lemma_merge_both;
use crate::trace::layers::advance;
use crate::trace::consolidation::consolidate_paired_slices;
use crate::trace::consolidation::paired_prefix;
use crate::trace::consolidation::swap_items;
use crate::zset::same_weights;

verus! {

/// Keys and weights in two columns of equal length: `diffs[i]` is the
/// weight of `keys[i]`.
#[derive(Debug, Clone, PartialEq, Eq)]
pub struct ColumnLayer<K, R> {
    pub keys: Vec<K>,
    pub diffs: Vec<R>,
}

impl<K, R> ColumnLayer<K, R> {
    /// The columns have the same length.
    pub open spec fn wf(&self) -> bool {
        self.keys@.len() == self.diffs@.len()
    }

    /// The layer as a sequence of `(key, weight)` pairs.
    pub open spec fn entries(&self) -> Seq<(K, R)> {
        pairs(self.keys@, self.diffs@)
    }

    /// The pairs at the positions `lower..upper`.
    pub open spec fn range(&self, lower: int, upper: int) -> Seq<(K, R)> {
        self.entries().subrange(lower, upper)
    }

    /// A layer without tuples.
    pub fn empty() -> (layer: Self)
        ensures
            layer.wf(),
            layer.keys@.len() == 0,
            layer.entries() == Seq::<(K, R)>::empty(),
    {
        let layer = ColumnLayer { keys: Vec::new(), diffs: Vec::new() };
        proof {
            assert(layer.entries() =~= Seq::<(K, R)>::empty());
        }
        layer
    }

    /// The number of tuples.
    pub fn tuples(&self) -> (n: usize)
        requires
            self.wf(),
        ensures
            n == self.entries().len(),
    {
        self.keys.len()
    }

    /// Whether the layer holds no tuple.
    pub fn is_empty(&self) -> (b: bool)
        requires
            self.wf(),
        ensures
            b == (self.entries().len() == 0),
    {
        self.keys.len() == 0
    }

    /// Cuts both columns down to their first `length` tuples.
    pub fn truncate(&mut self, length: usize)
        requires
            old(self).wf(),
        ensures
            final(self).wf(),
            length <= old(self).entries().len() ==> final(self).entries() == old(self).range(
                0,
                length as int,
            ),
            length > old(self).entries().len() ==> final(self).entries() == old(self).entries(),
    {
        self.keys.truncate(length);
        self.diffs.truncate(length);
        proof {
            if length <= old(self).entries().len() {
                assert(self.entries() =~= old(self).range(0, length as int));
            }
        }
    }

    /// Both columns, for writing in place.
    pub fn columns_mut(&mut self) -> (columns: (&mut [K], &mut [R]))
        ensures
            columns.0@ == old(self).keys@,
            columns.1@ == old(self).diffs@,
            final(self).keys@ == final(columns.0)@,
            final(self).diffs@ == final(columns.1)@,
    {
        (self.keys.as_mut_slice(), self.diffs.as_mut_slice())
    }
}

impl<K: Ord + Clone, R: GroupValue> ColumnLayer<K, R> {
    /// The layer with every weight replaced by its opposite.
    pub fn neg_by_ref(&self) -> (negated: Self)
        requires
            self.wf(),
            faithful_clone::<K>(),
        ensures
            negated.wf(),
            negated.keys@ == self.keys@,
            negated.diffs@.len() == self.diffs@.len(),
            forall|i: int|
                0 <= i < self.diffs@.len() ==> negated.diffs@[i] == (#[trigger] self.diffs@[i]).neg_spec(),
            crate::zset::negated(self.entries(), negated.entries()),
    {
        let n = self.keys.len();
        let mut keys: Vec<K> = Vec::with_capacity(n);
        let mut diffs: Vec<R> = Vec::with_capacity(n);
        let mut i: usize = 0;
        while i < n
            invariant
                self.wf(),
                faithful_clone::<K>(),
                n == self.keys@.len(),
                i <= n,
                keys@ == self.keys@.subrange(0, i as int),
                diffs@.len() == i,
                forall|j: int| 0 <= j < i ==> diffs@[j] == (#[trigger] self.diffs@[j]).neg_spec(),
            decreases n - i,
        {
            keys.push(duplicate(&self.keys[i]));
            diffs.push(self.diffs[i].neg_by_ref());
            proof {
                assert(keys@ =~= self.keys@.subrange(0, i + 1));
            }
            i += 1;
        }
        proof {
            assert(self.keys@.subrange(0, n as int) =~= self.keys@);
        }
        ColumnLayer { keys, diffs }
    }

    /// Replaces every weight by its opposite.
    pub fn neg(self) -> (negated: Self)
        requires
            self.wf(),
        ensures
            negated.wf(),
            negated.keys@ == self.keys@,
            negated.diffs@.len() == self.diffs@.len(),
            forall|i: int|
                0 <= i < self.diffs@.len() ==> negated.diffs@[i] == (#[trigger] self.diffs@[i]).neg_spec(),
            crate::zset::negated(self.entries(), negated.entries()),
    {
        let mut layer = self;
        let n = layer.diffs.len();
        let mut i: usize = 0;
        while i < n
            invariant
                n == self.diffs@.len(),
                layer.diffs@.len() == n,
                layer.keys@ == self.keys@,
                self.wf(),
                i <= n,
                forall|j: int| 0 <= j < i ==> layer.diffs@[j] == (#[trigger] self.diffs@[j]).neg_spec(),
                forall|j: int| i <= j < n ==> layer.diffs@[j] == self.diffs@[j],
            decreases n - i,
        {
            let opposite = layer.diffs[i].neg_by_ref();
            layer.diffs[i] = opposite;
            i += 1;
        }
        layer
    }
}

/// A position in a range of a column layer.
pub struct ColumnLayerCursor<'s, K, R> {
    pub storage: &'s ColumnLayer<K, R>,
    pub pos: usize,
    pub bounds: (usize, usize),
}

impl<K: Ord, R> ColumnLayer<K, R> {
    /// A cursor over the tuples at `lower..upper`, placed on the first.
    pub fn cursor_from(&self, lower: usize, upper: usize) -> (cursor: ColumnLayerCursor<'_, K, R>)
        requires
            self.wf(),
            lower <= upper <= self.entries().len(),
        ensures
            cursor.wf(),
            cursor.storage == self,
            cursor.pos == lower,
            cursor.bounds == (lower, upper),
    {
        ColumnLayerCursor { storage: self, pos: lower, bounds: (lower, upper) }
    }

    /// A cursor over all tuples.
    pub fn cursor(&self) -> (cursor: ColumnLayerCursor<'_, K, R>)
        requires
            self.wf(),
        ensures
            cursor.wf(),
            cursor.storage == self,
            cursor.pos == 0,
            cursor.bounds.0 == 0,
            cursor.bounds.1 == self.keys@.len(),
    {
        self.cursor_from(0, self.keys.len())
    }
}

impl<'s, K: Ord, R> ColumnLayerCursor<'s, K, R> {
    /// The cursor stands inside its range, or at its end.
    pub open spec fn wf(&self) -> bool {
        &&& self.storage.wf()
        &&& self.bounds.0 <= self.pos <= self.bounds.1 <= self.storage.entries().len()
    }

    /// Another cursor over the same layer, at the same place.
    pub fn copy(&self) -> (cursor: Self)
        ensures
            cursor == *self,
    {
        ColumnLayerCursor { storage: self.storage, pos: self.pos, bounds: self.bounds }
    }

    /// The number of tuples in the cursor's range.
    pub fn keys(&self) -> (n: usize)
        requires
            self.wf(),
        ensures
            n == self.bounds.1 - self.bounds.0,
    {
        self.bounds.1 - self.bounds.0
    }

    /// Whether the cursor stands on a tuple.
    pub fn valid(&self) -> (b: bool)
        ensures
            b == (self.pos < self.bounds.1),
    {
        self.pos < self.bounds.1
    }

    /// The tuple under the cursor.
    pub fn key(&self) -> (tuple: (&'s K, &'s R))
        requires
            self.wf(),
            self.pos < self.bounds.1,
        ensures
            *tuple.0 == self.storage.keys@[self.pos as int],
            *tuple.1 == self.storage.diffs@[self.pos as int],
    {
        (&self.storage.keys[self.pos], &self.storage.diffs[self.pos])
    }

    /// The key under the cursor.
    pub fn current_key(&self) -> (key: &'s K)
        requires
            self.wf(),
            self.pos < self.bounds.1,
        ensures
            *key == self.storage.keys@[self.pos as int],
    {
        &self.storage.keys[self.pos]
    }

    /// The weight under the cursor.
    pub fn current_diff(&self) -> (diff: &'s R)
        requires
            self.wf(),
            self.pos < self.bounds.1,
        ensures
            *diff == self.storage.diffs@[self.pos as int],
    {
        &self.storage.diffs[self.pos]
    }

    /// Moves to the next tuple, or to the end of the range.
    pub fn step(&mut self)
        requires
            old(self).wf(),
        ensures
            final(self).wf(),
            final(self).storage == old(self).storage,
            final(self).bounds == old(self).bounds,
            old(self).pos < old(self).bounds.1 ==> final(self).pos == old(self).pos + 1,
            old(self).pos >= old(self).bounds.1 ==> final(self).pos == old(self).pos,
    {
        if self.pos < self.bounds.1 {
            self.pos += 1;
        }
    }

    /// Moves forward to the first tuple whose key is not before `key`, or to
    /// the end of the range.
    pub fn seek(&mut self, key: &K)
        requires
            old(self).wf(),
            lawful::<K>(),
            crate::order::strictly_increasing(
                old(self).storage.keys@.subrange(old(self).pos as int, old(self).bounds.1 as int),
            ),
        ensures
            final(self).wf(),
            final(self).storage == old(self).storage,
            final(self).bounds == old(self).bounds,
            old(self).pos <= final(self).pos,
            forall|i: int|
                old(self).pos <= i < final(self).pos ==> key_lt(
                    #[trigger] final(self).storage.keys@[i],
                    *key,
                ),
            forall|i: int|
                final(self).pos <= i < final(self).bounds.1 ==> !key_lt(
                    #[trigger] final(self).storage.keys@[i],
                    *key,
                ),
    {
        let before = |k: &K| -> (r: bool)
            requires
                lawful::<K>(),
            ensures
                r == key_lt(*k, *key),
            { less(k, key) };
        let rest = &self.storage.keys[self.pos..self.bounds.1];
        let n = advance(rest, before);
        proof {
            let start = self.pos as int;
            assert forall|i: int| start <= i < start + n implies key_lt(
                #[trigger] self.storage.keys@[i],
                *key,
            ) by {
                assert(rest@[n - 1] == self.storage.keys@[start + n - 1]);
                assert(rest@[i - start] == self.storage.keys@[i]);
                if i - start < n - 1 {
                    assert(key_lt(rest@[i - start], rest@[n - 1]));
                    lemma_lt_transitive(rest@[i - start], rest@[n - 1], *key);
                }
            }
            assert forall|i: int| start + n <= i < self.bounds.1 implies !key_lt(
                #[trigger] self.storage.keys@[i],
                *key,
            ) by {
                assert(rest@[n as int] == self.storage.keys@[start + n]);
                assert(rest@[i - start] == self.storage.keys@[i]);
                if i - start > n {
                    assert(key_lt(rest@[n as int], rest@[i - start]));
                    if key_lt(rest@[i - start], *key) {
                        lemma_lt_transitive(rest@[n as int], rest@[i - start], *key);
                    }
                }
            }
        }
        self.pos += n;
    }

    /// The last key of the range, if the range is not empty.
    pub fn last_key(&self) -> (last: Option<&'s K>)
        requires
            self.wf(),
        ensures
            self.bounds.1 > self.bounds.0 ==> last == Some(&self.storage.keys@[self.bounds.1 - 1]),
            self.bounds.1 <= self.bounds.0 ==> last.is_none(),
    {
        if self.bounds.1 > self.bounds.0 {
            Some(&self.storage.keys[self.bounds.1 - 1])
        } else {
            None
        }
    }

    /// Moves back to the first tuple of the range.
    pub fn rewind(&mut self)
        requires
            old(self).wf(),
        ensures
            final(self).wf(),
            final(self).storage == old(self).storage,
            final(self).bounds == old(self).bounds,
            final(self).pos == old(self).bounds.0,
    {
        self.pos = self.bounds.0;
    }

    /// Gives the cursor another range of the same layer and places it on
    /// the first tuple of that range.
    pub fn reposition(&mut self, lower: usize, upper: usize)
        requires
            old(self).storage.wf(),
            lower <= upper <= old(self).storage.entries().len(),
        ensures
            final(self).wf(),
            final(self).storage == old(self).storage,
            final(self).bounds == (lower, upper),
            final(self).pos == lower,
    {
        self.pos = lower;
        self.bounds = (lower, upper);
    }
}

/// Assembles a column layer from tuples that arrive in order.
///
/// The tuples from `sealed` on are the open run: a tuple pushed with the
/// key of the run's last tuple is added to it. What lies before `sealed`
/// is closed and stays as it is.
pub struct ColumnLayerBuilder<K, R> {
    pub keys: Vec<K>,
    pub diffs: Vec<R>,
    pub sealed: usize,
}

impl<K: Ord + Clone, R: MonoidValue> ColumnLayerBuilder<K, R> {
    /// The tuples pushed so far.
    pub open spec fn entries(&self) -> Seq<(K, R)> {
        pairs(self.keys@, self.diffs@)
    }

    /// The open run.
    pub open spec fn open(&self) -> Seq<(K, R)> {
        self.entries().subrange(self.sealed as int, self.entries().len() as int)
    }

    /// The columns have one length and the open run is consolidated.
    pub open spec fn wf(&self) -> bool {
        &&& self.keys@.len() == self.diffs@.len()
        &&& self.sealed <= self.keys@.len()
        &&& consolidated(self.open())
    }

    /// A builder without tuples.
    pub fn new() -> (builder: Self)
        ensures
            builder.wf(),
            builder.entries() == Seq::<(K, R)>::empty(),
            builder.sealed == 0,
    {
        let builder = ColumnLayerBuilder { keys: Vec::new(), diffs: Vec::new(), sealed: 0 };
        proof {
            assert(builder.entries() =~= Seq::<(K, R)>::empty());
        }
        builder
    }

    /// A builder without tuples, with room for `capacity` of them. The
    /// capacity is a hint to the allocator.
    pub fn with_capacity(capacity: usize) -> (builder: Self)
        ensures
            builder.wf(),
            builder.entries() == Seq::<(K, R)>::empty(),
            builder.sealed == 0,
    {
        let builder = ColumnLayerBuilder {
            keys: Vec::with_capacity(capacity),
            diffs: Vec::with_capacity(capacity),
            sealed: 0,
        };
        proof {
            assert(builder.entries() =~= Seq::<(K, R)>::empty());
        }
        builder
    }

    /// Makes room for `additional` more tuples: a hint to the allocator,
    /// which changes nothing that the builder holds.
    pub fn reserve(&mut self, additional: usize)
        ensures
            final(self).keys@ == old(self).keys@,
            final(self).diffs@ == old(self).diffs@,
            final(self).sealed == old(self).sealed,
    {
        self.keys.reserve(additional);
        self.diffs.reserve(additional);
    }

    /// The number of tuples held.
    pub fn tuples(&self) -> (n: usize)
        ensures
            n == self.keys@.len(),
    {
        self.keys.len()
    }

    /// Closes the open run and returns the number of tuples held.
    pub fn boundary(&mut self) -> (b: usize)
        requires
            old(self).wf(),
        ensures
            final(self).wf(),
            final(self).keys@ == old(self).keys@,
            final(self).diffs@ == old(self).diffs@,
            final(self).sealed == b,
            b == old(self).keys@.len(),
    {
        self.sealed = self.keys.len();
        proof {
            assert(self.open() =~= Seq::<(K, R)>::empty());
        }
        self.sealed
    }

    /// The layer that holds the tuples.
    pub fn done(self) -> (layer: ColumnLayer<K, R>)
        requires
            self.wf(),
        ensures
            layer.wf(),
            layer.keys@ == self.keys@,
            layer.diffs@ == self.diffs@,
    {
        ColumnLayer { keys: self.keys, diffs: self.diffs }
    }

    /// Adds a tuple whose key is not before the last key of the open run.
    ///
    /// A tuple with the key of the run's last tuple is added to that tuple,
    /// which leaves when its weight becomes zero. A tuple of weight zero
    /// leaves no trace.
    pub fn push_tuple(&mut self, tuple: (K, R))
        requires
            old(self).wf(),
            lawful::<K>(),
            old(self).open().len() > 0 ==> key_le(old(self).open().last().0, tuple.0),
        ensures
            final(self).wf(),
            final(self).sealed == old(self).sealed,
            final(self).entries().subrange(0, final(self).sealed as int) == old(self).entries().subrange(
                0,
                old(self).sealed as int,
            ),
            final(self).entries().len() <= old(self).entries().len() + 1,
            forall|k: K| #[trigger]
                weight_of(final(self).open(), k) == weight_of(old(self).open(), k).add_spec(
                    share(tuple, k),
                ),
            final(self).open().len() > 0 ==> key_le(final(self).open().last().0, tuple.0),
            forall|i: int|
                0 <= i < final(self).keys@.len() ==> (#[trigger] final(self).keys@[i]) == tuple.0 || (i
                    < old(self).keys@.len() && final(self).keys@[i] == old(self).keys@[i]),
    {
        let (key, diff) = tuple;
        let n = self.keys.len();
        let ghost before = self.entries();
        let ghost run = self.open();
        let ghost sealed = self.sealed as int;
        if n > self.sealed && same(&self.keys[n - 1], &key) {
            let ghost last = run.last();
            let ghost front = run.drop_last();
            proof {
                assert(run.last() == before[n - 1]);
                lemma_consolidated_subrange(run, 0, run.len() - 1);
                assert(front =~= run.subrange(0, run.len() - 1));
                assert forall|i: int| 0 <= i < front.len() implies key_lt(
                    (#[trigger] front[i]).0,
                    key,
                ) by {
                    assert(front[i] == run[i]);
                }
            }
            self.diffs[n - 1].add_assign_by_ref(&diff);
            if self.diffs[n - 1].is_zero() {
                self.keys.pop();
                self.diffs.pop();
                proof {
                    assert(self.open() =~= front);
                    assert(self.entries().subrange(0, sealed) =~= before.subrange(0, sealed));
                    assert forall|k: K| #[trigger]
                        weight_of(self.open(), k) == weight_of(run, k).add_spec(share(tuple, k)) by {
                        assert(run =~= front.push(last));
                        lemma_weight_push(front, last, k);
                        if k == key {
                            R::lemma_add_associative(weight_of(front, k), last.1, diff);
                            R::lemma_add_zero(weight_of(front, k));
                        } else {
                            R::lemma_add_zero(weight_of(front, k));
                            R::lemma_add_zero(weight_of(run, k));
                        }
                    }
                    if front.len() > 0 {
                        assert(key_lt(front.last().0, key));
                    }
                }
            } else {
                proof {
                    let merged = (key, last.1.add_spec(diff));
                    assert(self.open() =~= front.push(merged));
                    assert(self.entries().subrange(0, sealed) =~= before.subrange(0, sealed));
                    assert(consolidated(self.open())) by {
                        let now = self.open();
                        assert forall|i: int, j: int| 0 <= i < j < now.len() implies key_lt(
                            now[i].0,
                            now[j].0,
                        ) by {
                            assert(now[i].0 == run[i].0 && now[j].0 == run[j].0);
                        }
                        assert forall|i: int| 0 <= i < now.len() implies (#[trigger] now[i]).1
                            != R::zero_spec() by {
                            if i < front.len() {
                                assert(now[i] == run[i]);
                            }
                        }
                    }
                    assert forall|k: K| #[trigger]
                        weight_of(self.open(), k) == weight_of(run, k).add_spec(share(tuple, k)) by {
                        assert(run =~= front.push(last));
                        lemma_weight_push(front, last, k);
                        lemma_weight_push(front, merged, k);
                        if k == key {
                            R::lemma_add_associative(weight_of(front, k), last.1, diff);
                        } else {
                            R::lemma_add_zero(weight_of(run, k));
                        }
                    }
                }
            }
        } else if !diff.is_zero() {
            self.keys.push(key);
            self.diffs.push(diff);
            proof {
                assert(self.open() =~= run.push(tuple));
                assert(self.entries().subrange(0, sealed) =~= before.subrange(0, sealed));
                assert(consolidated(self.open())) by {
                    let now = self.open();
                    assert forall|i: int, j: int| 0 <= i < j < now.len() implies key_lt(
                        now[i].0,
                        now[j].0,
                    ) by {
                        if j < run.len() {
                            assert(now[i] == run[i] && now[j] == run[j]);
                        } else {
                            assert(now[i] == run[i]);
                            let l = run.len() - 1;
                            assert(run.last() == before[n - 1]);
                            assert(key_lt(run[l].0, key));
                            if i < l {
                                lemma_lt_transitive(run[i].0, run[l].0, key);
                            }
                        }
                    }
                    assert forall|i: int| 0 <= i < now.len() implies (#[trigger] now[i]).1
                        != R::zero_spec() by {
                        if i < run.len() {
                            assert(now[i] == run[i]);
                        }
                    }
                }
                assert forall|k: K| #[trigger]
                    weight_of(self.open(), k) == weight_of(run, k).add_spec(share(tuple, k)) by {
                    lemma_weight_push(run, tuple, k);
                }
            }
        } else {
            proof {
                assert forall|k: K| #[trigger]
                    weight_of(self.open(), k) == weight_of(run, k).add_spec(share(tuple, k)) by {
                    R::lemma_add_zero(weight_of(run, k));
                }
            }
        }
    }

    /// Appends the tuples at `lower..upper` of `other` and closes the run.
    pub fn copy_range(&mut self, other: &ColumnLayer<K, R>, lower: usize, upper: usize)
        requires
            old(self).keys@.len() == old(self).diffs@.len(),
            other.wf(),
            faithful_clone::<K>(),
            lower <= upper <= other.entries().len(),
        ensures
            final(self).wf(),
            final(self).entries() == old(self).entries() + other.range(lower as int, upper as int),
            final(self).sealed == final(self).entries().len(),
    {
        let ghost before = self.entries();
        self.keys.extend_from_slice(&other.keys[lower..upper]);
        self.diffs.extend_from_slice(&other.diffs[lower..upper]);
        self.sealed = self.keys.len();
        proof {
            let want = before + other.range(lower as int, upper as int);
            assert(self.entries().len() == want.len());
            assert forall|i: int| 0 <= i < want.len() implies self.entries()[i] == want[i] by {
                if i >= before.len() {
                    let j = i - before.len();
                    let from_keys = other.keys@.subrange(lower as int, upper as int);
                    let from_diffs = other.diffs@.subrange(lower as int, upper as int);
                    assert(cloned(from_keys[j], self.keys@[i]));
                    assert(cloned(from_diffs[j], self.diffs@[i]));
                    R::lemma_clone_faithful(from_diffs[j], self.diffs@[i]);
                }
            }
            assert(self.entries() =~= want);
            assert(self.open() =~= Seq::<(K, R)>::empty());
        }
    }
}

/// The most tuples that one step of a merge copies from one side.
pub const MERGE_STRIDE: usize = 1000;

/// How far a merge may copy from `keys[lower..upper]` before it meets
/// `bound`: at least one key, at most `MERGE_STRIDE`, and behind the first
/// only keys before `bound`.
pub fn stride<K: Ord>(keys: &Vec<K>, lower: usize, upper: usize, bound: &K) -> (step: usize)
    requires
        lawful::<K>(),
        lower < upper <= keys@.len(),
        crate::order::strictly_increasing(keys@.subrange(lower as int, upper as int)),
    ensures
        1 <= step <= upper - lower,
        step <= MERGE_STRIDE,
        forall|i: int| lower < i < lower + step ==> key_lt(#[trigger] keys@[i], *bound),
        step < MERGE_STRIDE && lower + step < upper ==> !key_lt(keys@[lower + step], *bound),
{
    let before = |k: &K| -> (r: bool)
        requires
            lawful::<K>(),
        ensures
            r == key_lt(*k, *bound),
        { less(k, bound) };
    let rest = &keys[(1 + lower)..upper];
    let n = advance(rest, before);
    let step = if n < MERGE_STRIDE {
        1 + n
    } else {
        MERGE_STRIDE
    };
    proof {
        let whole = keys@.subrange(lower as int, upper as int);
        assert forall|i: int| lower < i < lower + step implies key_lt(#[trigger] keys@[i], *bound) by {
            let at = i - lower - 1;
            assert(rest@[at] == keys@[i]);
            assert(rest@[n - 1] == keys@[lower + n]);
            if at < n - 1 {
                assert(whole[at + 1] == keys@[i]);
                assert(whole[n as int] == keys@[lower + n]);
                assert(key_lt(whole[at + 1], whole[n as int]));
                lemma_lt_transitive(keys@[i], keys@[lower + n], *bound);
            }
        }
        if step < MERGE_STRIDE && lower + step < upper {
            assert(rest@[n as int] == keys@[lower + step]);
        }
    }
    step
}

impl<K: Ord + Clone, R: MonoidValue> ColumnLayerBuilder<K, R> {
    /// Merges the ranges of two cursors into the builder: each key gets
    /// the sum of its weights in the two ranges, and leaves if the sum is
    /// zero. Closes the run and returns the number of tuples then held.
    pub fn push_merge<'a>(
        &mut self,
        cursor1: ColumnLayerCursor<'a, K, R>,
        cursor2: ColumnLayerCursor<'a, K, R>,
    ) -> (boundary: usize)
        requires
            old(self).keys@.len() == old(self).diffs@.len(),
            lawful::<K>(),
            faithful_clone::<K>(),
            cursor1.wf(),
            cursor2.wf(),
            consolidated(cursor1.storage.range(cursor1.bounds.0 as int, cursor1.bounds.1 as int)),
            consolidated(cursor2.storage.range(cursor2.bounds.0 as int, cursor2.bounds.1 as int)),
        ensures
            final(self).wf(),
            boundary == final(self).entries().len(),
            final(self).sealed == boundary,
            boundary >= old(self).entries().len(),
            boundary - old(self).entries().len() <= (cursor1.bounds.1 - cursor1.bounds.0) + (
            cursor2.bounds.1 - cursor2.bounds.0),
            final(self).entries().subrange(0, old(self).entries().len() as int) == old(self).entries(),
            consolidated(
                final(self).entries().subrange(old(self).entries().len() as int, boundary as int),
            ),
            forall|k: K| #[trigger]
                weight_of(
                    final(self).entries().subrange(
                        old(self).entries().len() as int,
                        boundary as int,
                    ),
                    k,
                ) == weight_of(
                    cursor1.storage.range(cursor1.bounds.0 as int, cursor1.bounds.1 as int),
                    k,
                ).add_spec(
                    weight_of(
                        cursor2.storage.range(cursor2.bounds.0 as int, cursor2.bounds.1 as int),
                        k,
                    ),
                ),
    {
        let trie1 = cursor1.storage;
        let trie2 = cursor2.storage;
        let first1 = cursor1.bounds.0;
        let first2 = cursor2.bounds.0;
        let upper1 = cursor1.bounds.1;
        let upper2 = cursor2.bounds.1;
        let mut lower1 = first1;
        let mut lower2 = first2;
        let base = self.keys.len();
        let ghost before = self.entries();
        let ghost all1 = trie1.range(first1 as int, upper1 as int);
        let ghost all2 = trie2.range(first2 as int, upper2 as int);
        self.reserve(upper1 - lower1);
        self.reserve(upper2 - lower2);
        proof {
            assert(self.entries().subrange(0, base as int) =~= before);
            assert(self.entries().subrange(base as int, base as int) =~= Seq::<(K, R)>::empty());
            assert(trie1.range(first1 as int, first1 as int) =~= Seq::<(K, R)>::empty());
            assert(trie2.range(first2 as int, first2 as int) =~= Seq::<(K, R)>::empty());
            R::lemma_add_zero(R::zero_spec());
            assert forall|i: int, j: int| first1 <= i < j < upper1 implies key_lt(
                trie1.keys@[i],
                trie1.keys@[j],
            ) by {
                assert(all1[i - first1] == trie1.entries()[i]);
                assert(all1[j - first1] == trie1.entries()[j]);
                assert(key_lt(all1[i - first1].0, all1[j - first1].0));
            }
            assert forall|i: int, j: int| first2 <= i < j < upper2 implies key_lt(
                trie2.keys@[i],
                trie2.keys@[j],
            ) by {
                assert(all2[i - first2] == trie2.entries()[i]);
                assert(all2[j - first2] == trie2.entries()[j]);
                assert(key_lt(all2[i - first2].0, all2[j - first2].0));
            }
        }
        while lower1 < upper1 && lower2 < upper2
            invariant
                lawful::<K>(),
                faithful_clone::<K>(),
                trie1.wf(),
                trie2.wf(),
                upper1 <= trie1.entries().len(),
                upper2 <= trie2.entries().len(),
                all1 == trie1.range(first1 as int, upper1 as int),
                all2 == trie2.range(first2 as int, upper2 as int),
                consolidated(all1),
                consolidated(all2),
                forall|i: int, j: int|
                    first1 <= i < j < upper1 ==> key_lt(trie1.keys@[i], trie1.keys@[j]),
                forall|i: int, j: int|
                    first2 <= i < j < upper2 ==> key_lt(trie2.keys@[i], trie2.keys@[j]),
                first1 <= lower1 <= upper1,
                first2 <= lower2 <= upper2,
                self.keys@.len() == self.diffs@.len(),
                base <= self.keys@.len(),
                self.keys@.len() - base <= (lower1 - first1) + (lower2 - first2),
                self.entries().subrange(0, base as int) == before,
                consolidated(self.entries().subrange(base as int, self.entries().len() as int)),
                forall|p: int|
                    base <= p < self.keys@.len() && lower1 < upper1 ==> key_lt(
                        #[trigger] self.keys@[p],
                        trie1.keys@[lower1 as int],
                    ),
                forall|p: int|
                    base <= p < self.keys@.len() && lower2 < upper2 ==> key_lt(
                        #[trigger] self.keys@[p],
                        trie2.keys@[lower2 as int],
                    ),
                forall|k: K| #[trigger]
                    weight_of(self.entries().subrange(base as int, self.entries().len() as int), k)
                        == weight_of(trie1.range(first1 as int, lower1 as int), k).add_spec(
                        weight_of(trie2.range(first2 as int, lower2 as int), k),
                    ),
            decreases (upper1 - lower1) + (upper2 - lower2),
        {
            let ghost out = self.entries().subrange(base as int, self.entries().len() as int);
            let ghost done1 = trie1.range(first1 as int, lower1 as int);
            let ghost done2 = trie2.range(first2 as int, lower2 as int);
            let ghost len0 = self.keys@.len();
            let ghost keys0 = self.keys@;
            let ghost ent0 = self.entries();
            proof {
                lemma_lt_total(trie1.keys@[lower1 as int], trie2.keys@[lower2 as int]);
            }
            if less(&trie1.keys[lower1], &trie2.keys[lower2]) {
                {
                    proof {
                        assert(trie1.keys@.subrange(lower1 as int, upper1 as int) =~= Seq::new(
                            (upper1 - lower1) as nat,
                            |i: int| trie1.keys@[lower1 + i],
                        ));
                    }
                    let step = stride(&trie1.keys, lower1, upper1, &trie2.keys[lower2]);
                    self.copy_range(trie1, lower1, lower1 + step);
                    proof {
                        let more = trie1.range(lower1 as int, lower1 + step);
                        let out2 = self.entries().subrange(base as int, self.entries().len() as int);
                        assert(out2 =~= out + more);
                        assert(self.entries().subrange(0, base as int) =~= before);
                        assert(trie1.range(first1 as int, lower1 + step) =~= done1 + more);
                        assert(more =~= all1.subrange(lower1 - first1, lower1 + step - first1));
                        lemma_consolidated_subrange(all1, lower1 - first1, lower1 + step - first1);
                        if out.len() > 0 {
                            assert(out.last().0 == keys0[len0 - 1]);
                            assert(more[0].0 == trie1.keys@[lower1 as int]);
                        }
                        lemma_consolidated_concat(out, more);
                        assert forall|k: K| #[trigger]
                            weight_of(out2, k) == weight_of(
                                trie1.range(first1 as int, lower1 + step),
                                k,
                            ).add_spec(weight_of(done2, k)) by {
                            assert(weight_of(out, k) == weight_of(done1, k).add_spec(
                                weight_of(done2, k),
                            ));
                            lemma_merge_left(out, done1, more, done2, k);
                        }
                        assert forall|p: int|
                            base <= p < self.keys@.len() && lower1 + step < upper1 implies key_lt(
                            #[trigger] self.keys@[p],
                            trie1.keys@[lower1 + step],
                        ) by {
                            if p < len0 {
                                assert(self.entries()[p] == ent0[p]);
                                assert(self.keys@[p] == keys0[p]);
                                lemma_lt_transitive(
                                    keys0[p],
                                    trie1.keys@[lower1 as int],
                                    trie1.keys@[lower1 + step],
                                );
                            } else {
                                assert(self.entries()[p] == more[p - len0]);
                                assert(self.keys@[p] == trie1.keys@[lower1 + (p - len0)]);
                            }
                        }
                        assert forall|p: int| base <= p < self.keys@.len() implies key_lt(
                            #[trigger] self.keys@[p],
                            trie2.keys@[lower2 as int],
                        ) by {
                            if p < len0 {
                                assert(self.entries()[p] == ent0[p]);
                                assert(self.keys@[p] == keys0[p]);
                            } else {
                                assert(self.entries()[p] == more[p - len0]);
                                assert(self.keys@[p] == trie1.keys@[lower1 + (p - len0)]);
                            }
                        }
                    }
                    lower1 += step;
                }
            } else if same(&trie1.keys[lower1], &trie2.keys[lower2]) {
                {
                    let mut sum = clone_weight(&trie1.diffs[lower1]);
                    sum.add_assign_by_ref(&trie2.diffs[lower2]);
                    let ghost a = trie1.entries()[lower1 as int];
                    let ghost b = trie2.entries()[lower2 as int];
                    if !sum.is_zero() {
                        self.keys.push(duplicate(&trie1.keys[lower1]));
                        self.diffs.push(sum);
                    }
                    proof {
                        let out2 = self.entries().subrange(base as int, self.entries().len() as int);
                        let met: Seq<(K, R)> = if sum == R::zero_spec() {
                            Seq::empty()
                        } else {
                            seq![(a.0, sum)]
                        };
                        assert(out2 =~= out + met);
                        assert(self.entries().subrange(0, base as int) =~= before);
                        assert(trie1.range(first1 as int, lower1 + 1) =~= done1.push(a));
                        assert(trie2.range(first2 as int, lower2 + 1) =~= done2.push(b));
                        assert(consolidated(out2)) by {
                            assert forall|i: int, j: int| 0 <= i < j < out2.len() implies key_lt(
                                out2[i].0,
                                out2[j].0,
                            ) by {
                                if j < out.len() {
                                    assert(out2[i] == out[i] && out2[j] == out[j]);
                                } else {
                                    assert(out2[i] == out[i]);
                                    assert(out[i].0 == keys0[base + i]);
                                }
                            }
                            assert forall|i: int| 0 <= i < out2.len() implies (#[trigger] out2[i]).1
                                != R::zero_spec() by {
                                if i < out.len() {
                                    assert(out2[i] == out[i]);
                                }
                            }
                        }
                        assert forall|k: K| #[trigger]
                            weight_of(out2, k) == weight_of(
                                trie1.range(first1 as int, lower1 + 1),
                                k,
                            ).add_spec(weight_of(trie2.range(first2 as int, lower2 + 1), k)) by {
                            assert(weight_of(out, k) == weight_of(done1, k).add_spec(
                                weight_of(done2, k),
                            ));
                            lemma_merge_both(out, done1, a, done2, b, met, k);
                        }
                        assert forall|p: int|
                            base <= p < self.keys@.len() && lower1 + 1 < upper1 implies key_lt(
                            #[trigger] self.keys@[p],
                            trie1.keys@[lower1 + 1],
                        ) by {
                            if p < len0 {
                                assert(self.entries()[p] == ent0[p]);
                                assert(self.keys@[p] == keys0[p]);
                                lemma_lt_transitive(
                                    keys0[p],
                                    trie1.keys@[lower1 as int],
                                    trie1.keys@[lower1 + 1],
                                );
                            }
                        }
                        assert forall|p: int|
                            base <= p < self.keys@.len() && lower2 + 1 < upper2 implies key_lt(
                            #[trigger] self.keys@[p],
                            trie2.keys@[lower2 + 1],
                        ) by {
                            if p < len0 {
                                assert(self.entries()[p] == ent0[p]);
                                assert(self.keys@[p] == keys0[p]);
                                lemma_lt_transitive(
                                    keys0[p],
                                    trie2.keys@[lower2 as int],
                                    trie2.keys@[lower2 + 1],
                                );
                            }
                        }
                    }
                    lower1 += 1;
                    lower2 += 1;
                }
            } else {
                {
                    proof {
                        assert(trie2.keys@.subrange(lower2 as int, upper2 as int) =~= Seq::new(
                            (upper2 - lower2) as nat,
                            |i: int| trie2.keys@[lower2 + i],
                        ));
                    }
                    let step = stride(&trie2.keys, lower2, upper2, &trie1.keys[lower1]);
                    self.copy_range(trie2, lower2, lower2 + step);
                    proof {
                        let more = trie2.range(lower2 as int, lower2 + step);
                        let out2 = self.entries().subrange(base as int, self.entries().len() as int);
                        assert(out2 =~= out + more);
                        assert(self.entries().subrange(0, base as int) =~= before);
                        assert(trie2.range(first2 as int, lower2 + step) =~= done2 + more);
                        assert(more =~= all2.subrange(lower2 - first2, lower2 + step - first2));
                        lemma_consolidated_subrange(all2, lower2 - first2, lower2 + step - first2);
                        if out.len() > 0 {
                            assert(out.last().0 == keys0[len0 - 1]);
                            assert(more[0].0 == trie2.keys@[lower2 as int]);
                        }
                        lemma_consolidated_concat(out, more);
                        assert forall|k: K| #[trigger]
                            weight_of(out2, k) == weight_of(done1, k).add_spec(
                                weight_of(trie2.range(first2 as int, lower2 + step), k),
                            ) by {
                            assert(weight_of(out, k) == weight_of(done1, k).add_spec(
                                weight_of(done2, k),
                            ));
                            lemma_merge_right(out, done1, done2, more, k);
                        }
                        assert forall|p: int|
                            base <= p < self.keys@.len() && lower2 + step < upper2 implies key_lt(
                            #[trigger] self.keys@[p],
                            trie2.keys@[lower2 + step],
                        ) by {
                            if p < len0 {
                                assert(self.entries()[p] == ent0[p]);
                                assert(self.keys@[p] == keys0[p]);
                                lemma_lt_transitive(
                                    keys0[p],
                                    trie2.keys@[lower2 as int],
                                    trie2.keys@[lower2 + step],
                                );
                            } else {
                                assert(self.entries()[p] == more[p - len0]);
                                assert(self.keys@[p] == trie2.keys@[lower2 + (p - len0)]);
                            }
                        }
                        assert forall|p: int| base <= p < self.keys@.len() implies key_lt(
                            #[trigger] self.keys@[p],
                            trie1.keys@[lower1 as int],
                        ) by {
                            if p < len0 {
                                assert(self.entries()[p] == ent0[p]);
                                assert(self.keys@[p] == keys0[p]);
                            } else {
                                assert(self.entries()[p] == more[p - len0]);
                                assert(self.keys@[p] == trie2.keys@[lower2 + (p - len0)]);
                            }
                        }
                    }
                    lower2 += step;
                }
            }
        }
        if lower1 < upper1 {
            let ghost out = self.entries().subrange(base as int, self.entries().len() as int);
            let ghost done1 = trie1.range(first1 as int, lower1 as int);
            let ghost done2 = trie2.range(first2 as int, lower2 as int);
            let ghost len0 = self.keys@.len();
            let ghost keys0 = self.keys@;
            let ghost ent0 = self.entries();
            self.copy_range(trie1, lower1, upper1);
            proof {
                let more = trie1.range(lower1 as int, upper1 as int);
                let out2 = self.entries().subrange(base as int, self.entries().len() as int);
                assert(out2 =~= out + more);
                assert(self.entries().subrange(0, base as int) =~= before);
                assert(all1 =~= done1 + more);
                assert(more =~= all1.subrange(lower1 - first1, upper1 - first1));
                lemma_consolidated_subrange(all1, lower1 - first1, upper1 - first1);
                if out.len() > 0 {
                    assert(out.last().0 == keys0[len0 - 1]);
                    assert(more[0].0 == trie1.keys@[lower1 as int]);
                }
                lemma_consolidated_concat(out, more);
                assert forall|k: K| #[trigger]
                    weight_of(out2, k) == weight_of(all1, k).add_spec(weight_of(done2, k)) by {
                    assert(weight_of(out, k) == weight_of(done1, k).add_spec(weight_of(done2, k)));
                    lemma_merge_left(out, done1, more, done2, k);
                }
            }
            lower1 = upper1;
        }
        if lower2 < upper2 {
            let ghost out = self.entries().subrange(base as int, self.entries().len() as int);
            let ghost done1 = trie1.range(first1 as int, lower1 as int);
            let ghost done2 = trie2.range(first2 as int, lower2 as int);
            let ghost len0 = self.keys@.len();
            let ghost keys0 = self.keys@;
            let ghost ent0 = self.entries();
            self.copy_range(trie2, lower2, upper2);
            proof {
                let more = trie2.range(lower2 as int, upper2 as int);
                let out2 = self.entries().subrange(base as int, self.entries().len() as int);
                assert(out2 =~= out + more);
                assert(self.entries().subrange(0, base as int) =~= before);
                assert(all2 =~= done2 + more);
                assert(more =~= all2.subrange(lower2 - first2, upper2 - first2));
                lemma_consolidated_subrange(all2, lower2 - first2, upper2 - first2);
                if out.len() > 0 {
                    assert(out.last().0 == keys0[len0 - 1]);
                    assert(more[0].0 == trie2.keys@[lower2 as int]);
                }
                lemma_consolidated_concat(out, more);
                assert forall|k: K| #[trigger]
                    weight_of(out2, k) == weight_of(done1, k).add_spec(weight_of(all2, k)) by {
                    assert(weight_of(out, k) == weight_of(done1, k).add_spec(weight_of(done2, k)));
                    lemma_merge_right(out, done1, done2, more, k);
                }
            }
            lower2 = upper2;
        }
        self.sealed = self.keys.len();
        proof {
            assert(self.open() =~= Seq::<(K, R)>::empty());
            assert(trie1.range(first1 as int, lower1 as int) == all1);
            assert(trie2.range(first2 as int, lower2 as int) == all2);
        }
        self.keys.len()
    }
}

impl<K: Ord, R: MonoidValue> ColumnLayer<K, R> {
    /// Consolidates the tuples at `lower..upper` in place and returns how
    /// many are left: they stand at `lower..lower + count`. The tuples
    /// outside `lower..upper` stay as they are; `scratch` is scratch space.
    pub fn consolidate_range(&mut self, lower: usize, upper: usize, scratch: &mut Vec<usize>) -> (count:
        usize)
        requires
            old(self).wf(),
            lawful::<K>(),
            lower <= upper <= old(self).entries().len(),
        ensures
            final(self).wf(),
            final(self).entries().len() == old(self).entries().len(),
            count <= upper - lower,
            final(self).range(0, lower as int) == old(self).range(0, lower as int),
            final(self).range(upper as int, final(self).entries().len() as int) == old(self).range(
                upper as int,
                old(self).entries().len() as int,
            ),
            consolidated(final(self).range(lower as int, lower + count)),
            same_weights(
                final(self).range(lower as int, lower + count),
                old(self).range(lower as int, upper as int),
            ),
    {
        let ghost keys0 = self.keys@;
        let ghost diffs0 = self.diffs@;
        let ghost total = keys0.len() as int;
        let keys = self.keys.as_mut_slice();
        let diffs = self.diffs.as_mut_slice();
        let (keys_head, keys_rest) = keys.split_at_mut(lower);
        let (keys_run, keys_tail) = keys_rest.split_at_mut(upper - lower);
        let (diffs_head, diffs_rest) = diffs.split_at_mut(lower);
        let (diffs_run, diffs_tail) = diffs_rest.split_at_mut(upper - lower);
        let ghost run0 = pairs(keys_run@, diffs_run@);
        let count = consolidate_paired_slices(keys_run, diffs_run, scratch);
        proof {
            let krun = keys_run@;
            let drun = diffs_run@;
            assert(self.keys@ =~= keys0.subrange(0, lower as int) + (krun + keys0.subrange(
                upper as int,
                total,
            )));
            assert(self.diffs@ =~= diffs0.subrange(0, lower as int) + (drun + diffs0.subrange(
                upper as int,
                total,
            )));
            assert(self.range(0, lower as int) =~= old(self).range(0, lower as int));
            assert(self.range(upper as int, total) =~= old(self).range(upper as int, total));
            assert(self.range(lower as int, lower + count) =~= paired_prefix(krun, drun, count as int));
            assert(run0 =~= old(self).range(lower as int, upper as int));
        }
        count
    }

    /// Moves the `count` tuples at `from..` down to `to..`, where `to` is
    /// not behind `from`. The tuples before `to` and those from
    /// `from + count` on stay as they are.
    pub fn move_down(&mut self, from: usize, count: usize, to: usize)
        requires
            old(self).wf(),
            to <= from,
            from + count <= old(self).entries().len(),
        ensures
            final(self).wf(),
            final(self).entries().len() == old(self).entries().len(),
            final(self).range(0, to as int) == old(self).range(0, to as int),
            final(self).range(to as int, to + count) == old(self).range(from as int, from + count),
            final(self).range(from + count, final(self).entries().len() as int) == old(self).range(
                from + count,
                old(self).entries().len() as int,
            ),
    {
        let ghost before = self.entries();
        let ghost total = before.len() as int;
        let length = self.keys.len();
        let mut moved: usize = 0;
        while moved < count
            invariant
                self.wf(),
                length == total,
                moved <= count,
                to <= from,
                from + count <= total,
                self.entries().len() == total,
                forall|i: int| 0 <= i < to ==> self.entries()[i] == before[i],
                forall|i: int| to <= i < to + moved ==> self.entries()[i] == before[from + (i - to)],
                forall|i: int| from + moved <= i < total ==> self.entries()[i] == before[i],
            decreases count - moved,
        {
            let ghost held = self.entries();
            swap_items(self.keys.as_mut_slice(), to + moved, from + moved);
            swap_items(self.diffs.as_mut_slice(), to + moved, from + moved);
            proof {
                assert(self.entries() =~= held.update(to + moved, held[from + moved]).update(
                    from + moved,
                    held[to + moved],
                ));
            }
            moved += 1;
        }
        proof {
            assert(self.range(0, to as int) =~= old(self).range(0, to as int));
            assert(self.range(to as int, to + count) =~= old(self).range(from as int, from + count));
            assert(self.range(from + count, total) =~= old(self).range(from + count, total));
        }
    }
}

impl<K: Ord + Clone, R: MonoidValue> ColumnLayer<K, R> {
    /// A copy of the layer.
    pub fn copy(&self) -> (copy: Self)
        requires
            self.wf(),
            faithful_clone::<K>(),
        ensures
            copy.wf(),
            copy.keys@ == self.keys@,
            copy.diffs@ == self.diffs@,
            copy.entries() == self.entries(),
    {
        let n = self.diffs.len();
        let mut diffs: Vec<R> = Vec::with_capacity(n);
        let mut i: usize = 0;
        while i < n
            invariant
                n == self.diffs@.len(),
                i <= n,
                diffs@ == self.diffs@.subrange(0, i as int),
            decreases n - i,
        {
            diffs.push(clone_weight(&self.diffs[i]));
            proof {
                assert(diffs@ =~= self.diffs@.subrange(0, i + 1));
            }
            i += 1;
        }
        proof {
            assert(self.diffs@.subrange(0, n as int) =~= self.diffs@);
        }
        ColumnLayer { keys: duplicate_all(&self.keys), diffs }
    }
}

} // verus!
