//! Batches of keys: for each key, the times at which its weight changed
//! and by how much.

use vstd::prelude::*;
use crate::algebra::AddByRef;
use crate::algebra::HasZero;
use crate::algebra::MonoidValue;
use crate::algebra::NumEntries;
use crate::order::duplicate_all;
use crate::zset::lemma_weight_at;
use crate::zset::lemma_weight_all_zero;
use crate::zset::lemma_weight_sum_kept;
use crate::zset::lemma_weight_sum_of_zero;
use crate::zset::weight_sum;
use crate::order::strictly_increasing;
use crate::order::faithful_clone;
use crate::order::key_lt;
use crate::order::lawful;
use crate::order::less;
use crate::order::lemma_lt_total;
use crate::time::Antichain;
use crate::time::Timestamp;
use crate::trace::layers::column_layer::ColumnLayer;
use crate::trace::layers::column_layer::ColumnLayerBuilder;
use crate::trace::layers::column_layer::MERGE_STRIDE;
use crate::trace::layers::ordered::OrderedBuilder;
use crate::trace::layers::ordered::OrderedCursor;
use crate::trace::layers::ordered::OrderedLayer;
use crate::trace::layers::ordered::tuple_share;
use crate::zset::weight_of;
use crate::zset::consolidated;
use crate::zset::lemma_weight_push;
use crate::zset::lemma_weight_absent;
use crate::time::Lattice;
use crate::order::duplicate;
use core::marker::PhantomData;
use crate::algebra::clone_weight;
use crate::trace::layers::ordered::UnorderedBuilder;
use crate::trace::consolidation::swap_items;
use crate::trace::layers::ordered::key_level;
use crate::trace::layers::ordered::span;
use crate::zset::lemma_zero_add;
use crate::trace::layers::ordered::same_columns;
use crate::trace::layers::ordered::lemma_layer_unique;
use crate::trace::layers::ordered::summed_run;
use crate::trace::layers::ordered::lemma_level_at;
use crate::trace::layers::ordered::lemma_level_absent;
use crate::trace::layers::ordered::trie_wf;
use crate::trace::layers::ordered::lemma_trie_push;
use crate::zset::lemma_weight_concat;

verus! {

/// An immutable collection of update tuples, from a contiguous interval of
/// logical times.
#[derive(Debug, Clone, PartialEq, Eq)]
pub struct OrdKeyBatch<K, T, R> {
    /// Where all the data is: each key with its `(time, weight)` pairs.
    pub layer: OrderedLayer<K, ColumnLayer<T, R>>,
    /// No time of the batch is before these.
    pub lower: Antichain<T>,
    /// Every time of the batch is before these.
    pub upper: Antichain<T>,
}

impl<K: Ord + Clone, T: Ord + Clone + Timestamp, R: MonoidValue> OrdKeyBatch<K, T, R> {
    /// The layer is a well-formed trie and the bounds are antichains.
    pub open spec fn wf(&self) -> bool {
        &&& self.layer.wf()
        &&& self.lower.wf()
        &&& self.upper.wf()
    }

    /// The weight of `key` at `time`.
    pub open spec fn weight(&self, key: K, time: T) -> R {
        self.layer.weight(key, time)
    }

    /// Every time of the batch is at or after the lower bound.
    pub open spec fn after_lower(&self) -> bool {
        forall|i: int|
            0 <= i < self.layer.vals.entries().len() ==> self.lower.le_spec(
                &(#[trigger] self.layer.vals.entries()[i]).0,
            )
    }

    /// No time of the batch is at or after the upper bound.
    pub open spec fn before_upper(&self) -> bool {
        forall|i: int|
            0 <= i < self.layer.vals.entries().len() ==> !self.upper.le_spec(
                &(#[trigger] self.layer.vals.entries()[i]).0,
            )
    }

    /// Every time of the batch lies in its bounds: at or after the lower
    /// bound and not at or after the upper bound. Builders and merges
    /// make batches of this kind. Taking the times back to a frontier
    /// keeps them before the upper bound, but may take them below the
    /// lower bound, which stays as it is.
    pub open spec fn in_bounds(&self) -> bool {
        self.after_lower() && self.before_upper()
    }

    /// The number of keys.
    pub fn key_count(&self) -> (n: usize)
        ensures
            n == self.layer.keys@.len(),
    {
        self.layer.keys()
    }

    /// The number of tuples.
    pub fn len(&self) -> (n: usize)
        requires
            self.wf(),
        ensures
            n == self.layer.vals.entries().len(),
    {
        self.layer.tuples()
    }

    /// Whether the batch holds no tuple.
    pub fn is_empty(&self) -> (b: bool)
        ensures
            b == (self.layer.keys@.len() == 0),
    {
        self.layer.is_empty()
    }

    /// The lower bound of the times.
    pub fn lower(&self) -> (lower: &Antichain<T>)
        ensures
            lower == &self.lower,
    {
        &self.lower
    }

    /// The upper bound of the times.
    pub fn upper(&self) -> (upper: &Antichain<T>)
        ensures
            upper == &self.upper,
    {
        &self.upper
    }

    /// The state of a merge of `self` with `other`, nothing merged yet.
    pub fn begin_merge(&self, other: &Self) -> (merger: OrdKeyMerger<K, T, R>)
        requires
            self.wf(),
            other.wf(),
        ensures
            merger.wf(self, other),
            merger.lower1 == 0,
            merger.lower2 == 0,
    {
        OrdKeyMerger::new_merger(self, other)
    }

    /// The union of two batches: each tuple has the sum of the weights it
    /// has in the two; the bounds are those of both together.
    pub fn merge(&self, other: &Self) -> (merged: Self)
        requires
            self.wf(),
            other.wf(),
            lawful::<K>(),
            lawful::<T>(),
            faithful_clone::<K>(),
            faithful_clone::<T>(),
        ensures
            merged.wf(),
            forall|k: K, t: T| #[trigger]
                merged.weight(k, t) == self.weight(k, t).add_spec(other.weight(k, t)),
            forall|t: T| #[trigger]
                merged.lower.le_spec(&t) <==> (self.lower.le_spec(&t) || other.lower.le_spec(&t)),
            forall|t: T| #[trigger]
                merged.upper.le_spec(&t) <==> (self.upper.le_spec(&t) && other.upper.le_spec(&t)),
            self.in_bounds() && other.in_bounds() ==> merged.in_bounds(),
    {
        let mut merger = self.begin_merge(other);
        while merger.lower1 < merger.upper1 || merger.lower2 < merger.upper2
            invariant
                self.wf(),
                other.wf(),
                lawful::<K>(),
                lawful::<T>(),
                faithful_clone::<K>(),
                faithful_clone::<T>(),
                merger.wf(self, other),
            decreases (merger.upper1 - merger.lower1) + (merger.upper2 - merger.lower2),
        {
            let mut fuel = isize::MAX;
            merger.work(self, other, &mut fuel);
        }
        merger.done(self, other)
    }
}

/// State for an in-progress merge.
pub struct OrdKeyMerger<K, T, R> {
    // first batch, and position therein.
    pub lower1: usize,
    pub upper1: usize,
    // second batch, and position therein.
    pub lower2: usize,
    pub upper2: usize,
    // result that we are currently assembling.
    pub result: OrderedBuilder<K, ColumnLayerBuilder<T, R>>,
    pub lower: Antichain<T>,
    pub upper: Antichain<T>,
}

impl<K: Ord + Clone, T: Ord + Clone + Timestamp, R: MonoidValue> OrdKeyMerger<K, T, R> {
    /// The merge stands between two steps: the result holds the sum of
    /// what lies before the two positions, and its keys are before the
    /// keys at the positions.
    pub open spec fn wf(&self, source1: &OrdKeyBatch<K, T, R>, source2: &OrdKeyBatch<K, T, R>) -> bool {
        &&& self.result.wf()
        &&& !self.result.is_open()
        &&& self.lower.wf()
        &&& self.upper.wf()
        &&& self.lower1 <= self.upper1 == source1.layer.keys@.len()
        &&& self.lower2 <= self.upper2 == source2.layer.keys@.len()
        &&& self.result.keys@.len() > 0 && self.lower1 < self.upper1 ==> key_lt(
            self.result.keys@.last(),
            source1.layer.keys@[self.lower1 as int],
        )
        &&& self.result.keys@.len() > 0 && self.lower2 < self.upper2 ==> key_lt(
            self.result.keys@.last(),
            source2.layer.keys@[self.lower2 as int],
        )
        &&& forall|k: K, t: T| #[trigger]
            self.result.weight(k, t) == source1.layer.span_weight(0, self.lower1 as int, k, t).add_spec(
                source2.layer.span_weight(0, self.lower2 as int, k, t),
            )
        &&& forall|t: T| #[trigger]
            self.lower.le_spec(&t) <==> (source1.lower.le_spec(&t) || source2.lower.le_spec(&t))
        &&& forall|t: T| #[trigger]
            self.upper.le_spec(&t) <==> (source1.upper.le_spec(&t) && source2.upper.le_spec(&t))
    }

    /// The state of a merge of two batches, nothing merged yet.
    pub fn new_merger(batch1: &OrdKeyBatch<K, T, R>, batch2: &OrdKeyBatch<K, T, R>) -> (merger: Self)
        requires
            batch1.wf(),
            batch2.wf(),
        ensures
            merger.wf(batch1, batch2),
            merger.lower1 == 0,
            merger.lower2 == 0,
    {
        let merger = OrdKeyMerger {
            lower1: 0,
            upper1: batch1.layer.keys(),
            lower2: 0,
            upper2: batch2.layer.keys(),
            result: OrderedBuilder::with_capacity_for(&batch1.layer, &batch2.layer),
            lower: batch1.lower().meet(batch2.lower()),
            upper: batch1.upper().join(batch2.upper()),
        };
        proof {
            assert forall|k: K, t: T| #[trigger]
                merger.result.weight(k, t) == batch1.layer.span_weight(0, 0, k, t).add_spec(
                    batch2.layer.span_weight(0, 0, k, t),
                ) by {
                assert(batch1.layer.level(t).subrange(0, 0) =~= Seq::<(K, R)>::empty());
                assert(batch2.layer.level(t).subrange(0, 0) =~= Seq::<(K, R)>::empty());
                R::lemma_add_zero(R::zero_spec());
            }
        }
        merger
    }

    /// The merged batch, once both sources are used up.
    pub fn done(self, source1: &OrdKeyBatch<K, T, R>, source2: &OrdKeyBatch<K, T, R>) -> (batch:
        OrdKeyBatch<K, T, R>)
        requires
            self.wf(source1, source2),
            source1.wf(),
            source2.wf(),
            self.lower1 == self.upper1,
            self.lower2 == self.upper2,
        ensures
            batch.wf(),
            forall|k: K, t: T| #[trigger]
                batch.weight(k, t) == source1.weight(k, t).add_spec(source2.weight(k, t)),
            forall|t: T| #[trigger]
                batch.lower.le_spec(&t) <==> (source1.lower.le_spec(&t) || source2.lower.le_spec(&t)),
            forall|t: T| #[trigger]
                batch.upper.le_spec(&t) <==> (source1.upper.le_spec(&t) && source2.upper.le_spec(&t)),
            lawful::<K>() && lawful::<T>() && source1.in_bounds() && source2.in_bounds()
                ==> batch.in_bounds(),
    {
        let batch = OrdKeyBatch { layer: self.result.done(), lower: self.lower, upper: self.upper };
        proof {
            if lawful::<K>() && lawful::<T>() && source1.in_bounds() && source2.in_bounds() {
                assert forall|p: int| 0 <= p < batch.layer.vals.entries().len() implies batch.lower.le_spec(
                    &(#[trigger] batch.layer.vals.entries()[p]).0,
                ) && !batch.upper.le_spec(&batch.layer.vals.entries()[p].0) by {
                    let t = batch.layer.vals.entries()[p].0;
                    let i = batch.layer.lemma_entry_weighs(p);
                    let k = batch.layer.keys@[i];
                    let n1 = source1.layer.keys@.len() as int;
                    let n2 = source2.layer.keys@.len() as int;
                    assert(source1.layer.level(t).subrange(0, n1) =~= source1.layer.level(t));
                    assert(source2.layer.level(t).subrange(0, n2) =~= source2.layer.level(t));
                    assert(batch.layer.weight(k, t) == self.result.weight(k, t));
                    assert(self.result.weight(k, t) == source1.layer.span_weight(0, n1, k, t).add_spec(
                        source2.layer.span_weight(0, n2, k, t),
                    ));
                    if source1.layer.weight(k, t) != R::zero_spec() {
                        let q = source1.layer.lemma_weighty_entry(k, t);
                        assert(source1.lower.le_spec(&source1.layer.vals.entries()[q].0));
                        assert(batch.lower.le_spec(&t));
                        assert(batch.upper.le_spec(&t) <==> (source1.upper.le_spec(&t)
                            && source2.upper.le_spec(&t)));
                    } else {
                        if source2.layer.weight(k, t) == R::zero_spec() {
                            R::lemma_add_zero(R::zero_spec());
                        }
                        let q = source2.layer.lemma_weighty_entry(k, t);
                        assert(source2.lower.le_spec(&source2.layer.vals.entries()[q].0));
                        assert(batch.lower.le_spec(&t));
                        assert(batch.upper.le_spec(&t) <==> (source1.upper.le_spec(&t)
                            && source2.upper.le_spec(&t)));
                    }
                }
            }
        }
        proof {
            let n1 = source1.layer.keys@.len() as int;
            let n2 = source2.layer.keys@.len() as int;
            assert forall|k: K, t: T| #[trigger]
                batch.weight(k, t) == source1.weight(k, t).add_spec(source2.weight(k, t)) by {
                assert(source1.layer.level(t).subrange(0, n1) =~= source1.layer.level(t));
                assert(source2.layer.level(t).subrange(0, n2) =~= source2.layer.level(t));
                assert(batch.layer.weight(k, t) == self.result.weight(k, t));
                assert(self.result.weight(k, t) == source1.layer.span_weight(0, n1, k, t).add_spec(
                    source2.layer.span_weight(0, n2, k, t),
                ));
            }
        }
        batch
    }

    /// The part of `fuel` that copying may use: not less than
    /// `MERGE_STRIDE`, not more than the `rest` that is left to copy.
    fn copy_budget(remaining_fuel: isize, rest: usize) -> (to_copy: usize)
        requires
            remaining_fuel > 0,
            rest > 0,
        ensures
            1 <= to_copy <= rest,
            to_copy == copy_share(remaining_fuel as int, rest as int),
    {
        let mut to_copy = remaining_fuel as usize;
        if to_copy < MERGE_STRIDE {
            to_copy = MERGE_STRIDE;
        }
        if to_copy > rest {
            to_copy = rest;
        }
        to_copy
    }

    /// Does a bounded amount of merging. Steps while both sources have
    /// keys left and fewer than `*fuel` tuples were written; once one
    /// source is used up and fuel is left, copies from the other as many
    /// keys as fuel is left, `MERGE_STRIDE` at least and no more than are
    /// left. Takes from `*fuel` the number of tuples written, which may
    /// leave it negative. Without fuel nothing is done.
    ///
    /// The positions reached are those of `worked`. A merge that is not
    /// finished has written at least `*fuel` tuples, and no call writes
    /// more tuples than it reads.
    pub fn work(
        &mut self,
        source1: &OrdKeyBatch<K, T, R>,
        source2: &OrdKeyBatch<K, T, R>,
        fuel: &mut isize,
    )
        requires
            old(self).wf(source1, source2),
            source1.wf(),
            source2.wf(),
            lawful::<K>(),
            lawful::<T>(),
            faithful_clone::<K>(),
            faithful_clone::<T>(),
        ensures
            final(self).wf(source1, source2),
            old(self).lower1 <= final(self).lower1,
            old(self).lower2 <= final(self).lower2,
            final(self).upper1 == old(self).upper1,
            final(self).upper2 == old(self).upper2,
            final(self).result.vals.keys@.len() >= old(self).result.vals.keys@.len(),
            (
                final(self).lower1 as int,
                final(self).lower2 as int,
                final(self).result.vals.keys@.len() - old(self).result.vals.keys@.len(),
            ) == worked(
                source1.layer,
                source2.layer,
                old(self).lower1 as int,
                old(self).lower2 as int,
                *old(fuel) as int,
            ),
            *old(fuel) > 0 && (old(self).lower1 < old(self).upper1 || old(self).lower2 < old(self).upper2) ==> final(self).lower1 + final(self).lower2 > old(self).lower1 + old(self).lower2,
            *old(fuel) <= 0 ==> final(self).result == old(self).result && final(self).lower1 == old(self).lower1 && final(self).lower2 == old(self).lower2,
            final(self).lower1 < final(self).upper1 || final(self).lower2 < final(self).upper2
                ==> final(self).result.vals.keys@.len() - old(self).result.vals.keys@.len() >= *old(fuel),
            final(self).result.vals.keys@.len() - old(self).result.vals.keys@.len()
                <= (source1.layer.offs@[final(self).lower1 as int]
                - source1.layer.offs@[old(self).lower1 as int])
                + (source2.layer.offs@[final(self).lower2 as int]
                - source2.layer.offs@[old(self).lower2 as int]),
            *final(fuel) == spent(
                *old(fuel),
                final(self).result.vals.keys@.len() - old(self).result.vals.keys@.len(),
            ),
    {
        let starting_updates = self.result.vals.tuples();
        let mut effort: isize = 0;
        let ghost first = source1.layer;
        let ghost second = source2.layer;
        let ghost start = starting_updates as int;
        // while both mergees are still active
        while self.lower1 < self.upper1 && self.lower2 < self.upper2 && effort < *fuel
            invariant
                self.wf(source1, source2),
                source1.wf(),
                source2.wf(),
                lawful::<K>(),
                lawful::<T>(),
                faithful_clone::<K>(),
                faithful_clone::<T>(),
                first == source1.layer,
                second == source2.layer,
                *fuel == *old(fuel),
                old(self).lower1 <= self.lower1,
                old(self).lower2 <= self.lower2,
                self.upper1 == old(self).upper1,
                self.upper2 == old(self).upper2,
                starting_updates == old(self).result.vals.keys@.len(),
                start == starting_updates,
                self.result.vals.keys@.len() >= starting_updates,
                effort == clipped(self.result.vals.keys@.len() - starting_updates),
                *old(fuel) <= 0 ==> self.result == old(self).result && self.lower1 == old(self).lower1
                    && self.lower2 == old(self).lower2,
                effort > 0 ==> self.lower1 + self.lower2 > old(self).lower1 + old(self).lower2,
                self.result.vals.keys@.len() - starting_updates
                    <= (first.offs@[self.lower1 as int] - first.offs@[old(self).lower1 as int])
                    + (second.offs@[self.lower2 as int] - second.offs@[old(self).lower2 as int]),
                merged_to(
                    first,
                    second,
                    self.lower1 as int,
                    self.lower2 as int,
                    self.result.vals.keys@.len() - start,
                    *fuel as int,
                ) == merged_to(
                    first,
                    second,
                    old(self).lower1 as int,
                    old(self).lower2 as int,
                    0,
                    *fuel as int,
                ),
            decreases (self.upper1 - self.lower1) + (self.upper2 - self.lower2),
        {
            let ghost before = self.result;
            let ghost at1 = self.lower1 as int;
            let ghost at2 = self.lower2 as int;
            let ghost written = self.result.vals.keys@.len() - start;
            let upper1 = self.upper1;
            let upper2 = self.upper2;
            self.result.merge_step(
                (&source1.layer, &mut self.lower1, upper1),
                (&source2.layer, &mut self.lower2, upper2),
            );
            effort = clip(self.result.vals.tuples() - starting_updates);
            proof {
                lemma_merger_step(
                    source1.layer,
                    source2.layer,
                    before,
                    self.result,
                    at1,
                    at2,
                    self.lower1 as int,
                    self.lower2 as int,
                );
                lemma_step_from(first.keys@, second.keys@, at1, at2, self.lower1 as int, self.lower2 as int);
                lemma_lt_total(first.keys@[at1], second.keys@[at2]);
                let now = self.result.vals.keys@.len() - start;
                assert(step_tuples(first, second, at1, at2) == now - written);
                assert(clipped(written) < *fuel);
                assert(merged_to(first, second, at1, at2, written, *fuel as int) == merged_to(
                    first,
                    second,
                    self.lower1 as int,
                    self.lower2 as int,
                    now,
                    *fuel as int,
                ));
            }
        }
        let ghost mid1 = self.lower1 as int;
        let ghost mid2 = self.lower2 as int;
        let ghost mid_tuples = self.result.vals.keys@.len() as int;
        proof {
            assert(merged_to(first, second, mid1, mid2, mid_tuples - start, *fuel as int) == (
                mid1,
                mid2,
                mid_tuples - start,
            ));
        }
        // Merging is complete; only copying remains. Copying is probably faster than
        // merging, so could take some liberties here.
        if self.lower1 == self.upper1 || self.lower2 == self.upper2 {
            // Limit merging by remaining fuel.
            if *fuel > effort {
                let remaining_fuel = *fuel - effort;
                if self.lower1 < self.upper1 {
                    let to_copy = Self::copy_budget(remaining_fuel, self.upper1 - self.lower1);
                    let ghost before = self.result;
                    let ghost at1 = self.lower1 as int;
                    self.result.copy_range(&source1.layer, self.lower1, self.lower1 + to_copy);
                    self.lower1 += to_copy;
                    proof {
                        lemma_merger_copy_first(
                            source1.layer,
                            source2.layer,
                            before,
                            self.result,
                            at1,
                            self.lower1 as int,
                            self.lower2 as int,
                        );
                        lemma_offsets_spread(first.offs@, at1, self.lower1 as int);
                    }
                }
                if self.lower2 < self.upper2 {
                    let to_copy = Self::copy_budget(remaining_fuel, self.upper2 - self.lower2);
                    let ghost before = self.result;
                    let ghost at2 = self.lower2 as int;
                    self.result.copy_range(&source2.layer, self.lower2, self.lower2 + to_copy);
                    self.lower2 += to_copy;
                    proof {
                        lemma_merger_copy_second(
                            source1.layer,
                            source2.layer,
                            before,
                            self.result,
                            self.lower1 as int,
                            at2,
                            self.lower2 as int,
                        );
                        lemma_offsets_spread(second.offs@, at2, self.lower2 as int);
                    }
                }
            }
        }
        effort = clip(self.result.vals.tuples() - starting_updates);
        *fuel = if *fuel >= isize::MIN + effort {
            *fuel - effort
        } else {
            isize::MIN
        };
    }
}

/// How many keys a merge copies at once from a source with `rest` keys
/// left, where `remaining` fuel is left: as many as there is fuel,
/// `MERGE_STRIDE` at least, and no more than are left.
pub open spec fn copy_share(remaining: int, rest: int) -> int {
    if remaining < MERGE_STRIDE as int {
        if rest < MERGE_STRIDE as int {
            rest
        } else {
            MERGE_STRIDE as int
        }
    } else if remaining > rest {
        rest
    } else {
        remaining
    }
}

/// Where the run of keys before `bound` ends that starts at `at`: at the
/// first key that is not before `bound`, at `limit`, or at `upper`.
pub open spec fn run_end<K: Ord>(keys: Seq<K>, at: int, upper: int, limit: int, bound: K) -> int
    decreases upper - at,
{
    if 0 <= at < upper && at < limit && key_lt(keys[at], bound) {
        run_end(keys, at + 1, upper, limit, bound)
    } else {
        at
    }
}

/// The positions after one step of merging from the positions `at1` and
/// `at2`: where the keys there differ, the side of the smaller key moves
/// over that key and over the keys behind it that are before the other
/// key, `MERGE_STRIDE` keys at most; where they are the same, both sides
/// move over it.
pub open spec fn step_from<K: Ord>(keys1: Seq<K>, keys2: Seq<K>, at1: int, at2: int) -> (int, int) {
    if key_lt(keys1[at1], keys2[at2]) {
        (
            run_end(keys1, at1 + 1, keys1.len() as int, at1 + MERGE_STRIDE as int, keys2[at2]),
            at2,
        )
    } else if key_lt(keys2[at2], keys1[at1]) {
        (
            at1,
            run_end(keys2, at2 + 1, keys2.len() as int, at2 + MERGE_STRIDE as int, keys1[at1]),
        )
    } else {
        (at1 + 1, at2 + 1)
    }
}

/// The number of tuples that one step of merging writes from the
/// positions `at1` and `at2`: where the keys there differ, the values of
/// the keys that the step moves over; where they are the same, the
/// values of the key in the sum of its two runs.
pub open spec fn step_tuples<K: Ord + Clone, T: Ord + Clone, R: MonoidValue>(
    first: OrderedLayer<K, ColumnLayer<T, R>>,
    second: OrderedLayer<K, ColumnLayer<T, R>>,
    at1: int,
    at2: int,
) -> int {
    let next = step_from(first.keys@, second.keys@, at1, at2);
    if key_lt(first.keys@[at1], second.keys@[at2]) {
        first.offs@[next.0] - first.offs@[at1]
    } else if key_lt(second.keys@[at2], first.keys@[at1]) {
        second.offs@[next.1] - second.offs@[at2]
    } else {
        summed_run(
            span(first.offs@, first.vals.entries(), at1),
            span(second.offs@, second.vals.entries(), at2),
        ).len() as int
    }
}

/// Where the steps of a merge end that stand at the positions `at1` and
/// `at2` with `written` tuples written of `fuel`, and how many tuples
/// are written by then: the merge steps on while both layers have keys
/// left and fewer than `fuel` tuples were written.
pub open spec fn merged_to<K: Ord + Clone, T: Ord + Clone, R: MonoidValue>(
    first: OrderedLayer<K, ColumnLayer<T, R>>,
    second: OrderedLayer<K, ColumnLayer<T, R>>,
    at1: int,
    at2: int,
    written: int,
    fuel: int,
) -> (int, int, int)
    decreases (first.keys@.len() - at1) + (second.keys@.len() - at2),
{
    let next = step_from(first.keys@, second.keys@, at1, at2);
    if 0 <= at1 < first.keys@.len() && 0 <= at2 < second.keys@.len() && clipped(written) < fuel
        && at1 <= next.0 <= first.keys@.len() && at2 <= next.1 <= second.keys@.len() && next.0
        + next.1 > at1 + at2 {
        merged_to(
            first,
            second,
            next.0,
            next.1,
            written + step_tuples(first, second, at1, at2),
            fuel,
        )
    } else {
        (at1, at2, written)
    }
}

/// What `work` does from the positions `at1` and `at2` with `fuel`: the
/// positions it reaches and the number of tuples it writes. The merge
/// steps as `merged_to` says; where one layer is used up then and fuel
/// is left, the other layer is copied from by `copy_share` of the fuel
/// left and the keys left, with all the values of the keys copied.
pub open spec fn worked<K: Ord + Clone, T: Ord + Clone, R: MonoidValue>(
    first: OrderedLayer<K, ColumnLayer<T, R>>,
    second: OrderedLayer<K, ColumnLayer<T, R>>,
    at1: int,
    at2: int,
    fuel: int,
) -> (int, int, int) {
    let mid = merged_to(first, second, at1, at2, 0, fuel);
    let effort = clipped(mid.2);
    let rest1 = first.keys@.len() - mid.0;
    let rest2 = second.keys@.len() - mid.1;
    if (rest1 == 0 || rest2 == 0) && fuel > effort {
        if rest1 > 0 {
            let to1 = mid.0 + copy_share(fuel - effort, rest1);
            (to1, mid.1, mid.2 + (first.offs@[to1] - first.offs@[mid.0]))
        } else if rest2 > 0 {
            let to2 = mid.1 + copy_share(fuel - effort, rest2);
            (mid.0, to2, mid.2 + (second.offs@[to2] - second.offs@[mid.1]))
        } else {
            mid
        }
    } else {
        mid
    }
}

/// A run of keys before `bound` that ends at `end` is the run that
/// `run_end` finds.
pub proof fn lemma_run_end<K: Ord>(keys: Seq<K>, at: int, upper: int, limit: int, bound: K, end: int)
    requires
        0 <= at <= end <= upper,
        end <= limit,
        forall|i: int| at <= i < end ==> key_lt(#[trigger] keys[i], bound),
        end < upper && end < limit ==> !key_lt(keys[end], bound),
    ensures
        run_end(keys, at, upper, limit, bound) == end,
    decreases end - at,
{
    if at < end {
        assert(key_lt(keys[at], bound));
        lemma_run_end(keys, at + 1, upper, limit, bound, end);
    }
}

/// Positions that one step of merging may reach are the positions of
/// `step_from`.
pub proof fn lemma_step_from<K: Ord>(keys1: Seq<K>, keys2: Seq<K>, at1: int, at2: int, to1: int, to2: int)
    requires
        lawful::<K>(),
        0 <= at1 < keys1.len(),
        0 <= at2 < keys2.len(),
        at1 <= to1 <= keys1.len(),
        at2 <= to2 <= keys2.len(),
        to1 + to2 > at1 + at2,
        to1 - at1 <= MERGE_STRIDE,
        to2 - at2 <= MERGE_STRIDE,
        key_lt(keys1[at1], keys2[at2]) ==> to2 == at2,
        key_lt(keys2[at2], keys1[at1]) ==> to1 == at1,
        keys1[at1] == keys2[at2] ==> to1 == at1 + 1 && to2 == at2 + 1,
        forall|i: int| at1 <= i < to1 && to2 == at2 ==> key_lt(#[trigger] keys1[i], keys2[at2]),
        forall|i: int| at2 <= i < to2 && to1 == at1 ==> key_lt(#[trigger] keys2[i], keys1[at1]),
        key_lt(keys1[at1], keys2[at2]) && to1 < keys1.len() && to1 - at1 < MERGE_STRIDE ==> !key_lt(
            keys1[to1],
            keys2[at2],
        ),
        key_lt(keys2[at2], keys1[at1]) && to2 < keys2.len() && to2 - at2 < MERGE_STRIDE ==> !key_lt(
            keys2[to2],
            keys1[at1],
        ),
    ensures
        step_from(keys1, keys2, at1, at2) == (to1, to2),
{
    lemma_lt_total(keys1[at1], keys2[at2]);
    if key_lt(keys1[at1], keys2[at2]) {
        lemma_run_end(keys1, at1 + 1, keys1.len() as int, at1 + MERGE_STRIDE as int, keys2[at2], to1);
    } else if key_lt(keys2[at2], keys1[at1]) {
        lemma_run_end(keys2, at2 + 1, keys2.len() as int, at2 + MERGE_STRIDE as int, keys1[at1], to2);
    }
}

/// Offsets that rise strictly are at least as far apart as their
/// places: every key has a value.
pub proof fn lemma_offsets_spread(offs: Seq<usize>, lower: int, upper: int)
    requires
        0 <= lower <= upper < offs.len(),
        forall|i: int, j: int| 0 <= i < j < offs.len() ==> offs[i] < offs[j],
    ensures
        offs[upper] - offs[lower] >= upper - lower,
    decreases upper - lower,
{
    if lower < upper {
        lemma_offsets_spread(offs, lower, upper - 1);
        assert(offs[upper - 1] < offs[upper]);
    }
}

/// A count of tuples as an amount of fuel, as far as an `isize` reaches.
pub open spec fn clipped(count: int) -> isize {
    if count > isize::MAX {
        isize::MAX
    } else {
        count as isize
    }
}

/// The fuel left of `fuel` once `count` tuples were written, as far down
/// as an `isize` reaches.
pub open spec fn spent(fuel: isize, count: int) -> isize {
    if fuel - clipped(count) < isize::MIN {
        isize::MIN
    } else {
        (fuel - clipped(count)) as isize
    }
}

/// A count of tuples as an amount of fuel.
fn clip(count: usize) -> (effort: isize)
    ensures
        effort == clipped(count as int),
        effort >= 0,
{
    if count > isize::MAX as usize {
        isize::MAX
    } else {
        count as isize
    }
}

/// One step of merging keeps the result the sum of what lies before the
/// two positions.
proof fn lemma_merger_step<K: Ord + Clone, T: Ord + Clone, R: MonoidValue>(
    source1: OrderedLayer<K, ColumnLayer<T, R>>,
    source2: OrderedLayer<K, ColumnLayer<T, R>>,
    before: OrderedBuilder<K, ColumnLayerBuilder<T, R>>,
    after: OrderedBuilder<K, ColumnLayerBuilder<T, R>>,
    at1: int,
    at2: int,
    to1: int,
    to2: int,
)
    requires
        0 <= at1 <= to1 <= source1.keys@.len(),
        0 <= at2 <= to2 <= source2.keys@.len(),
        forall|k: K, t: T| #[trigger]
            before.weight(k, t) == source1.span_weight(0, at1, k, t).add_spec(
                source2.span_weight(0, at2, k, t),
            ),
        forall|k: K, t: T| #[trigger]
            after.weight(k, t) == before.weight(k, t).add_spec(
                source1.span_weight(at1, to1, k, t),
            ).add_spec(source2.span_weight(at2, to2, k, t)),
    ensures
        forall|k: K, t: T| #[trigger]
            after.weight(k, t) == source1.span_weight(0, to1, k, t).add_spec(
                source2.span_weight(0, to2, k, t),
            ),
{
    assert forall|k: K, t: T| #[trigger]
        after.weight(k, t) == source1.span_weight(0, to1, k, t).add_spec(
            source2.span_weight(0, to2, k, t),
        ) by {
        let l1 = source1.level(t);
        let l2 = source2.level(t);
        assert(l1.subrange(0, to1) =~= l1.subrange(0, at1) + l1.subrange(at1, to1));
        assert(l2.subrange(0, to2) =~= l2.subrange(0, at2) + l2.subrange(at2, to2));
        lemma_weight_concat(l1.subrange(0, at1), l1.subrange(at1, to1), k);
        lemma_weight_concat(l2.subrange(0, at2), l2.subrange(at2, to2), k);
        let a1 = source1.span_weight(0, at1, k, t);
        let b1 = source2.span_weight(0, at2, k, t);
        let a2 = source1.span_weight(at1, to1, k, t);
        let b2 = source2.span_weight(at2, to2, k, t);
        assert(before.weight(k, t) == a1.add_spec(b1));
        // ((a1 + b1) + a2) + b2 == (a1 + a2) + (b1 + b2)
        R::lemma_add_associative(a1, b1, a2);
        R::lemma_add_commutative(b1, a2);
        R::lemma_add_associative(a1, a2, b1);
        R::lemma_add_associative(a1.add_spec(a2), b1, b2);
    }
}

/// Copying keys of the first source keeps the result the sum of what lies
/// before the two positions.
proof fn lemma_merger_copy_first<K: Ord + Clone, T: Ord + Clone, R: MonoidValue>(
    source1: OrderedLayer<K, ColumnLayer<T, R>>,
    source2: OrderedLayer<K, ColumnLayer<T, R>>,
    before: OrderedBuilder<K, ColumnLayerBuilder<T, R>>,
    after: OrderedBuilder<K, ColumnLayerBuilder<T, R>>,
    at1: int,
    to1: int,
    at2: int,
)
    requires
        0 <= at1 <= to1 <= source1.keys@.len(),
        0 <= at2 <= source2.keys@.len(),
        forall|k: K, t: T| #[trigger]
            before.weight(k, t) == source1.span_weight(0, at1, k, t).add_spec(
                source2.span_weight(0, at2, k, t),
            ),
        forall|k: K, t: T| #[trigger]
            after.weight(k, t) == before.weight(k, t).add_spec(source1.span_weight(at1, to1, k, t)),
    ensures
        forall|k: K, t: T| #[trigger]
            after.weight(k, t) == source1.span_weight(0, to1, k, t).add_spec(
                source2.span_weight(0, at2, k, t),
            ),
{
    assert forall|k: K, t: T| #[trigger]
        after.weight(k, t) == before.weight(k, t).add_spec(
            source1.span_weight(at1, to1, k, t),
        ).add_spec(source2.span_weight(at2, at2, k, t)) by {
        assert(source2.level(t).subrange(at2, at2) =~= Seq::<(K, R)>::empty());
        R::lemma_add_zero(after.weight(k, t));
    }
    lemma_merger_step(source1, source2, before, after, at1, at2, to1, at2);
}

/// Copying keys of the second source keeps the result the sum of what
/// lies before the two positions.
proof fn lemma_merger_copy_second<K: Ord + Clone, T: Ord + Clone, R: MonoidValue>(
    source1: OrderedLayer<K, ColumnLayer<T, R>>,
    source2: OrderedLayer<K, ColumnLayer<T, R>>,
    before: OrderedBuilder<K, ColumnLayerBuilder<T, R>>,
    after: OrderedBuilder<K, ColumnLayerBuilder<T, R>>,
    at1: int,
    at2: int,
    to2: int,
)
    requires
        0 <= at1 <= source1.keys@.len(),
        0 <= at2 <= to2 <= source2.keys@.len(),
        forall|k: K, t: T| #[trigger]
            before.weight(k, t) == source1.span_weight(0, at1, k, t).add_spec(
                source2.span_weight(0, at2, k, t),
            ),
        forall|k: K, t: T| #[trigger]
            after.weight(k, t) == before.weight(k, t).add_spec(source2.span_weight(at2, to2, k, t)),
    ensures
        forall|k: K, t: T| #[trigger]
            after.weight(k, t) == source1.span_weight(0, at1, k, t).add_spec(
                source2.span_weight(0, to2, k, t),
            ),
{
    assert forall|k: K, t: T| #[trigger]
        after.weight(k, t) == before.weight(k, t).add_spec(
            source1.span_weight(at1, at1, k, t),
        ).add_spec(source2.span_weight(at2, to2, k, t)) by {
        assert(source1.level(t).subrange(at1, at1) =~= Seq::<(K, R)>::empty());
        R::lemma_add_zero(before.weight(k, t));
    }
    lemma_merger_step(source1, source2, before, after, at1, at2, at1, to2);
}

/// The pairs of `run` with each time replaced by its meet with `frontier`.
pub open spec fn receded<T: Lattice, R>(run: Seq<(T, R)>, frontier: T) -> Seq<(T, R)> {
    Seq::new(run.len(), |i: int| (run[i].0.meet_spec(&frontier), run[i].1))
}

impl<K: Ord + Clone, T: Ord + Clone + Timestamp, R: MonoidValue> OrdKeyBatch<K, T, R> {
    /// The weight of `key` at `time` once every time of the batch is
    /// replaced by its meet with `frontier`: the sum of the weights that
    /// `key` has at the times whose meet with `frontier` is `time`.
    pub open spec fn receded_weight(&self, frontier: T, key: K, time: T) -> R {
        weight_of(
            key_level(
                self.layer.keys@,
                self.layer.offs@,
                receded(self.layer.vals.entries(), frontier),
                time,
            ),
            key,
        )
    }

    /// Takes the times of the batch back to `frontier`: replaces each by
    /// its meet with `frontier` and consolidates what then coincides, so
    /// that each key has at each time the weights that it had at the
    /// times whose meet with `frontier` is that time. The bounds stay as
    /// they are.
    pub fn recede_to(&mut self, frontier: &T)
        requires
            old(self).wf(),
            lawful::<K>(),
            lawful::<T>(),
        ensures
            final(self).wf(),
            final(self).lower == old(self).lower,
            final(self).upper == old(self).upper,
            forall|k: K, t: T| #[trigger]
                final(self).weight(k, t) == old(self).receded_weight(*frontier, k, t),
            old(self).before_upper() ==> final(self).before_upper(),
    {
        self.do_recede_to(frontier);
        proof {
            if old(self).before_upper() {
                lemma_receded_below_upper(*old(self), *self, *frontier);
            }
        }
    }

    /// Replaces each time by its meet with `frontier`, consolidates the
    /// times of each key, and drops the keys that are left without times.
    pub fn do_recede_to(&mut self, frontier: &T)
        requires
            old(self).wf(),
            lawful::<K>(),
            lawful::<T>(),
        ensures
            final(self).wf(),
            final(self).lower == old(self).lower,
            final(self).upper == old(self).upper,
            forall|k: K, t: T| #[trigger]
                final(self).weight(k, t) == old(self).receded_weight(*frontier, k, t),
    {
        let ghost keys0 = self.layer.keys@;
        let ghost offs0 = self.layer.offs@;
        let ghost child0 = self.layer.vals.entries();
        let ghost back = receded(child0, *frontier);
        // 1. For each (time, diff) pair, take the time back.
        let total = self.layer.vals.keys.len();
        let mut at: usize = 0;
        while at < total
            invariant
                at <= total,
                total == child0.len(),
                back == receded(child0, *frontier),
                self.layer.keys@ == keys0,
                self.layer.offs@ == offs0,
                self.lower == old(self).lower,
                self.upper == old(self).upper,
                self.layer.vals.wf(),
                self.layer.vals.entries().len() == total,
                forall|i: int| 0 <= i < at ==> self.layer.vals.entries()[i] == back[i],
                forall|i: int| at <= i < total ==> self.layer.vals.entries()[i] == child0[i],
            decreases total - at,
        {
            let ghost held = self.layer.vals.entries();
            self.layer.vals.keys[at].meet_assign(frontier);
            proof {
                let now = self.layer.vals.entries();
                assert(held[at as int] == child0[at as int]);
                assert(now[at as int] == back[at as int]);
                assert forall|i: int| 0 <= i < at implies now[i] == back[i] by {
                    assert(now[i] == held[i]);
                }
                assert forall|i: int| at + 1 <= i < total implies now[i] == child0[i] by {
                    assert(now[i] == held[i]);
                }
            }
            at += 1;
        }
        assert(self.layer.vals.entries() =~= back);
        // 2. For each key, consolidate its times, move what is left down
        //    behind what was kept, and keep the key if anything is left.
        let count_keys = self.layer.keys.len();
        let mut scratch: Vec<usize> = Vec::new();
        let mut kept_keys: usize = 0;
        let mut write_position: usize = 0;
        let mut lower: usize = 0;
        let mut i: usize = 0;
        proof {
            assert(self.layer.keys@.subrange(0, 0) =~= Seq::<K>::empty());
            assert(self.layer.offs@.subrange(0, 1) =~= seq![0usize]);
            assert(self.layer.vals.range(0, 0) =~= Seq::<(T, R)>::empty());
            assert forall|k: K, t: T|
                #[trigger] weight_of(
                    key_level(
                        self.layer.keys@.subrange(0, 0),
                        self.layer.offs@.subrange(0, 1),
                        self.layer.vals.range(0, 0),
                        t,
                    ),
                    k,
                ) == weight_of(key_level(keys0, offs0, back, t).subrange(0, 0), k) by {
                assert(key_level(
                    self.layer.keys@.subrange(0, 0),
                    self.layer.offs@.subrange(0, 1),
                    self.layer.vals.range(0, 0),
                    t,
                ) =~= Seq::<(K, R)>::empty());
                assert(key_level(keys0, offs0, back, t).subrange(0, 0) =~= Seq::<(K, R)>::empty());
            }
        }
        while i < count_keys
            invariant
                lawful::<K>(),
                lawful::<T>(),
                trie_wf(keys0, offs0, child0),
                back == receded(child0, *frontier),
                count_keys == keys0.len(),
                total == child0.len(),
                self.lower == old(self).lower,
                self.upper == old(self).upper,
                self.layer.keys@.len() == count_keys,
                self.layer.offs@.len() == count_keys + 1,
                self.layer.vals.wf(),
                self.layer.vals.entries().len() == total,
                kept_keys <= i <= count_keys,
                write_position <= lower <= total,
                lower == offs0[i as int],
                forall|q: int| i < q <= count_keys ==> self.layer.offs@[q] == offs0[q],
                forall|q: int| i <= q < count_keys ==> self.layer.keys@[q] == keys0[q],
                forall|q: int| lower <= q < total ==> self.layer.vals.entries()[q] == back[q],
                forall|p: int, q: int|
                    0 <= p < kept_keys && i <= q < count_keys ==> key_lt(
                        self.layer.keys@[p],
                        keys0[q],
                    ),
                trie_wf(
                    self.layer.keys@.subrange(0, kept_keys as int),
                    self.layer.offs@.subrange(0, kept_keys + 1),
                    self.layer.vals.range(0, write_position as int),
                ),
                forall|k: K, t: T|
                    #[trigger] weight_of(
                        key_level(
                            self.layer.keys@.subrange(0, kept_keys as int),
                            self.layer.offs@.subrange(0, kept_keys + 1),
                            self.layer.vals.range(0, write_position as int),
                            t,
                        ),
                        k,
                    ) == weight_of(key_level(keys0, offs0, back, t).subrange(0, i as int), k),
            decreases count_keys - i,
        {
            let ghost okeys = self.layer.keys@.subrange(0, kept_keys as int);
            let ghost ooffs = self.layer.offs@.subrange(0, kept_keys + 1);
            let ghost ochild = self.layer.vals.range(0, write_position as int);
            let ghost entries1 = self.layer.vals.entries();
            let upper = self.layer.offs[i + 1];
            proof {
                assert(offs0[i as int] < offs0[i + 1]);
                assert(i + 1 < count_keys ==> offs0[i + 1] < offs0[count_keys as int]);
            }
            let ghost run = back.subrange(lower as int, upper as int);
            assert(self.layer.vals.range(lower as int, upper as int) =~= run);
            // sort the range by the times and add up what coincides.
            let count = self.layer.vals.consolidate_range(lower, upper, &mut scratch);
            let ghost entries2 = self.layer.vals.entries();
            let ghost left = self.layer.vals.range(lower as int, lower + count);
            proof {
                assert forall|q: int| 0 <= q < lower implies entries2[q] == entries1[q] by {
                    assert(self.layer.vals.range(0, lower as int)[q] == entries1.subrange(
                        0,
                        lower as int,
                    )[q]);
                }
                assert forall|q: int| upper <= q < total implies entries2[q] == entries1[q] by {
                    assert(self.layer.vals.range(upper as int, total as int)[q - upper]
                        == entries1.subrange(upper as int, total as int)[q - upper]);
                }
            }
            self.layer.vals.move_down(lower, count, write_position);
            let ghost entries3 = self.layer.vals.entries();
            proof {
                assert forall|q: int| 0 <= q < write_position implies entries3[q]
                    == entries1[q] by {
                    assert(self.layer.vals.range(0, write_position as int)[q] == entries2.subrange(
                        0,
                        write_position as int,
                    )[q]);
                }
                assert forall|q: int| upper <= q < total implies entries3[q] == back[q] by {
                    assert(self.layer.vals.range(lower + count, total as int)[q - (lower + count)]
                        == entries2.subrange(lower + count, total as int)[q - (lower + count)]);
                }
                assert(self.layer.vals.range(0, write_position as int) =~= ochild);
                assert(self.layer.vals.range(write_position as int, write_position + count)
                    =~= left);
            }
            if count > 0 {
                let ghost keys1 = self.layer.keys@;
                swap_items(self.layer.keys.as_mut_slice(), kept_keys, i);
                kept_keys += 1;
                write_position += count;
                self.layer.offs[kept_keys] = write_position;
                proof {
                    let key = keys0[i as int];
                    assert(self.layer.keys@.subrange(0, kept_keys as int) =~= okeys.push(key));
                    assert(self.layer.offs@.subrange(0, kept_keys + 1) =~= ooffs.push(
                        (ochild.len() + left.len()) as usize,
                    ));
                    assert(self.layer.vals.range(0, write_position as int) =~= ochild + left);
                    if okeys.len() > 0 {
                        assert(okeys.last() == keys1[kept_keys - 2]);
                    }
                    lemma_trie_push(okeys, ooffs, ochild, key, left);
                    assert forall|p: int, q: int|
                        0 <= p < kept_keys && i + 1 <= q < count_keys implies key_lt(
                        self.layer.keys@[p],
                        keys0[q],
                    ) by {
                        if p < kept_keys - 1 {
                            assert(self.layer.keys@[p] == keys1[p]);
                        } else {
                            assert(key_lt(keys0[i as int], keys0[q]));
                        }
                    }
                    assert forall|k: K, t: T|
                        #[trigger] weight_of(
                            key_level(
                                self.layer.keys@.subrange(0, kept_keys as int),
                                self.layer.offs@.subrange(0, kept_keys + 1),
                                self.layer.vals.range(0, write_position as int),
                                t,
                            ),
                            k,
                        ) == weight_of(key_level(keys0, offs0, back, t).subrange(0, i + 1), k) by {
                        let was = key_level(okeys, ooffs, ochild, t);
                        let all = key_level(keys0, offs0, back, t);
                        assert(span(offs0, back, i as int) == run);
                        assert(weight_of(left, t) == weight_of(run, t));
                        assert(all.subrange(0, i + 1) =~= all.subrange(0, i as int).push(
                            (key, weight_of(run, t)),
                        ));
                        lemma_weight_push(was, (key, weight_of(left, t)), k);
                        lemma_weight_push(all.subrange(0, i as int), (key, weight_of(run, t)), k);
                        assert(weight_of(was, k) == weight_of(all.subrange(0, i as int), k));
                    }
                }
            } else {
                proof {
                    assert(left =~= Seq::<(T, R)>::empty());
                    assert forall|k: K, t: T|
                        #[trigger] weight_of(
                            key_level(
                                self.layer.keys@.subrange(0, kept_keys as int),
                                self.layer.offs@.subrange(0, kept_keys + 1),
                                self.layer.vals.range(0, write_position as int),
                                t,
                            ),
                            k,
                        ) == weight_of(key_level(keys0, offs0, back, t).subrange(0, i + 1), k) by {
                        let was = key_level(okeys, ooffs, ochild, t);
                        let all = key_level(keys0, offs0, back, t);
                        let key = keys0[i as int];
                        assert(span(offs0, back, i as int) == run);
                        assert(weight_of(left, t) == weight_of(run, t));
                        assert(all.subrange(0, i + 1) =~= all.subrange(0, i as int).push(
                            (key, R::zero_spec()),
                        ));
                        lemma_weight_push(all.subrange(0, i as int), (key, R::zero_spec()), k);
                        R::lemma_add_zero(weight_of(all.subrange(0, i as int), k));
                        assert(weight_of(was, k) == weight_of(all.subrange(0, i as int), k));
                    }
                }
            }
            lower = upper;
            i += 1;
        }
        // 3. Cut off what was moved away.
        let offsets = self.layer.offs.len();
        assert(kept_keys < offsets);
        self.layer.vals.truncate(write_position);
        self.layer.keys.truncate(kept_keys);
        self.layer.offs.truncate(kept_keys + 1);
        proof {
            assert forall|k: K, t: T| #[trigger]
                self.weight(k, t) == old(self).receded_weight(*frontier, k, t) by {
                let all = key_level(keys0, offs0, back, t);
                assert(all.subrange(0, count_keys as int) =~= all);
            }
        }
    }
}

/// `states` are the values that `fold` goes through on the pairs of
/// `run`, taken in order: one more than there are pairs.
pub open spec fn fold_states<T, R, U, F: Fn(U, &T, &R) -> U>(
    fold: F,
    run: Seq<(T, R)>,
    states: Seq<U>,
) -> bool {
    &&& states.len() == run.len() + 1
    &&& forall|i: int|
        0 <= i < run.len() ==> call_ensures(
            fold,
            (states[i], &run[i].0, &run[i].1),
            #[trigger] states[i + 1],
        )
}

/// `result` is what `fold` makes of `init` and the pairs of `run`, taken
/// in order.
pub open spec fn folds<T, R, U, F: Fn(U, &T, &R) -> U>(
    fold: F,
    run: Seq<(T, R)>,
    init: U,
    result: U,
) -> bool {
    exists|states: Seq<U>|
        #[trigger] fold_states(fold, run, states) && states[0] == init && states.last() == result
}

/// The pairs of `run` whose time is at or before `upper`, in order.
pub open spec fn through<T: Lattice, R>(run: Seq<(T, R)>, upper: T) -> Seq<(T, R)>
    decreases run.len(),
{
    if run.len() == 0 {
        Seq::empty()
    } else if run.last().0.le_spec(&upper) {
        through(run.drop_last(), upper).push(run.last())
    } else {
        through(run.drop_last(), upper)
    }
}

/// A cursor for navigating a single layer.
pub struct OrdKeyCursor<'s, K, T, R> {
    pub valid: bool,
    pub cursor: OrderedCursor<'s, K, T, R>,
}

impl<K: Ord + Clone, T: Ord + Clone + Timestamp, R: MonoidValue> OrdKeyBatch<K, T, R> {
    /// A cursor over the keys of the batch, placed on the first key.
    pub fn cursor(&self) -> (cursor: OrdKeyCursor<'_, K, T, R>)
        requires
            self.wf(),
        ensures
            cursor.wf(),
            cursor.valid,
            cursor.cursor.storage == &self.layer,
            cursor.cursor.pos == 0,
            cursor.cursor.bounds.0 == 0,
            cursor.cursor.bounds.1 == self.layer.keys@.len(),
            self.layer.keys@.len() > 0 ==> cursor.cursor.child.pos == self.layer.offs@[0],
    {
        OrdKeyCursor { valid: true, cursor: self.layer.cursor() }
    }
}

impl<'s, K: Ord + Clone, T: Ord + Clone + Timestamp, R: MonoidValue> OrdKeyCursor<'s, K, T, R> {
    /// The cursor below is well formed.
    pub open spec fn wf(&self) -> bool {
        self.cursor.wf()
    }

    /// The `(time, weight)` pairs of the key under the cursor.
    pub open spec fn times(&self) -> Seq<(T, R)> {
        self.cursor.child.storage.range(
            self.cursor.child.bounds.0 as int,
            self.cursor.child.bounds.1 as int,
        )
    }

    /// The key under the cursor.
    pub fn key(&self) -> (key: &'s K)
        requires
            self.wf(),
            self.cursor.pos < self.cursor.bounds.1,
        ensures
            *key == self.cursor.storage.keys@[self.cursor.pos as int],
    {
        self.cursor.key()
    }

    /// The value under the cursor: a batch of keys has the one value `()`.
    pub fn val(&self) -> (val: &'static ())
        ensures
            *val == (),
    {
        &()
    }

    /// Folds `fold` over the `(time, weight)` pairs of the key under the
    /// cursor, in order of time.
    pub fn fold_times<U, F: Fn(U, &T, &R) -> U>(&mut self, init: U, fold: F) -> (result: U)
        requires
            old(self).wf(),
            forall|u: U, i: int|
                0 <= i < old(self).times().len() ==> call_requires(
                    fold,
                    (u, &old(self).times()[i].0, &old(self).times()[i].1),
                ),
        ensures
            final(self).wf(),
            final(self).valid == old(self).valid,
            final(self).cursor.storage == old(self).cursor.storage,
            final(self).cursor.pos == old(self).cursor.pos,
            final(self).cursor.bounds == old(self).cursor.bounds,
            folds(fold, old(self).times(), init, result),
    {
        let ghost run = self.times();
        let ghost first = self.cursor.child.bounds.0 as int;
        let mut state = init;
        let ghost mut states: Seq<U> = seq![init];
        self.cursor.child.rewind();
        while self.cursor.child.valid()
            invariant
                self.wf(),
                self.valid == old(self).valid,
                self.cursor.storage == old(self).cursor.storage,
                self.cursor.pos == old(self).cursor.pos,
                self.cursor.bounds == old(self).cursor.bounds,
                self.cursor.child.bounds == old(self).cursor.child.bounds,
                self.cursor.child.storage == old(self).cursor.child.storage,
                first == self.cursor.child.bounds.0,
                run == old(self).times(),
                run.len() == self.cursor.child.bounds.1 - first,
                forall|u: U, i: int|
                    0 <= i < run.len() ==> call_requires(fold, (u, &run[i].0, &run[i].1)),
                fold_states(fold, run.subrange(0, self.cursor.child.pos - first), states),
                states[0] == init,
                states.last() == state,
            decreases self.cursor.child.bounds.1 - self.cursor.child.pos,
        {
            let ghost at = self.cursor.child.pos - first;
            let ghost earlier = states;
            proof {
                assert(run[at].0 == self.cursor.child.storage.keys@[self.cursor.child.pos as int]);
                assert(run[at].1 == self.cursor.child.storage.diffs@[self.cursor.child.pos as int]);
            }
            state = fold(state, self.cursor.child.current_key(), self.cursor.child.current_diff());
            self.cursor.child.step();
            proof {
                states = earlier.push(state);
                let now = run.subrange(0, at + 1);
                assert forall|i: int| 0 <= i < now.len() implies call_ensures(
                    fold,
                    (states[i], &now[i].0, &now[i].1),
                    #[trigger] states[i + 1],
                ) by {
                    if i < at {
                        assert(run.subrange(0, at)[i] == now[i]);
                        assert(states[i + 1] == earlier[i + 1]);
                    }
                }
            }
        }
        proof {
            assert(run.subrange(0, run.len() as int) =~= run);
            assert(fold_states(fold, run, states));
        }
        state
    }

    /// Folds `fold` over the `(time, weight)` pairs of the key under the
    /// cursor whose time is at or before `upper`, in order of time.
    pub fn fold_times_through<U, F: Fn(U, &T, &R) -> U>(&mut self, upper: &T, init: U, fold: F) -> (result:
        U)
        requires
            old(self).wf(),
            forall|u: U, i: int|
                0 <= i < old(self).times().len() ==> call_requires(
                    fold,
                    (u, &old(self).times()[i].0, &old(self).times()[i].1),
                ),
        ensures
            final(self).wf(),
            final(self).valid == old(self).valid,
            final(self).cursor.storage == old(self).cursor.storage,
            final(self).cursor.pos == old(self).cursor.pos,
            final(self).cursor.bounds == old(self).cursor.bounds,
            folds(fold, through(old(self).times(), *upper), init, result),
    {
        let ghost run = self.times();
        let ghost first = self.cursor.child.bounds.0 as int;
        let mut state = init;
        let ghost mut states: Seq<U> = seq![init];
        self.cursor.child.rewind();
        assert(through(run.subrange(0, 0), *upper) =~= Seq::<(T, R)>::empty());
        while self.cursor.child.valid()
            invariant
                self.wf(),
                self.valid == old(self).valid,
                self.cursor.storage == old(self).cursor.storage,
                self.cursor.pos == old(self).cursor.pos,
                self.cursor.bounds == old(self).cursor.bounds,
                self.cursor.child.bounds == old(self).cursor.child.bounds,
                self.cursor.child.storage == old(self).cursor.child.storage,
                first == self.cursor.child.bounds.0,
                run == old(self).times(),
                run.len() == self.cursor.child.bounds.1 - first,
                forall|u: U, i: int|
                    0 <= i < run.len() ==> call_requires(fold, (u, &run[i].0, &run[i].1)),
                fold_states(
                    fold,
                    through(run.subrange(0, self.cursor.child.pos - first), *upper),
                    states,
                ),
                states[0] == init,
                states.last() == state,
            decreases self.cursor.child.bounds.1 - self.cursor.child.pos,
        {
            let ghost at = self.cursor.child.pos - first;
            let ghost earlier = states;
            let ghost seen = through(run.subrange(0, at), *upper);
            proof {
                assert(run[at].0 == self.cursor.child.storage.keys@[self.cursor.child.pos as int]);
                assert(run[at].1 == self.cursor.child.storage.diffs@[self.cursor.child.pos as int]);
                let now = run.subrange(0, at + 1);
                assert(now.drop_last() =~= run.subrange(0, at));
                assert(now.last() == run[at]);
            }
            if self.cursor.child.current_key().less_equal(upper) {
                state =
                fold(state, self.cursor.child.current_key(), self.cursor.child.current_diff());
                proof {
                    states = earlier.push(state);
                    let got = through(run.subrange(0, at + 1), *upper);
                    assert(got == seen.push(run[at]));
                    assert forall|i: int| 0 <= i < got.len() implies call_ensures(
                        fold,
                        (states[i], &got[i].0, &got[i].1),
                        #[trigger] states[i + 1],
                    ) by {
                        if i < seen.len() {
                            assert(got[i] == seen[i]);
                            assert(states[i + 1] == earlier[i + 1]);
                        }
                    }
                }
            }
            self.cursor.child.step();
        }
        proof {
            assert(run.subrange(0, run.len() as int) =~= run);
            assert(fold_states(fold, through(run, *upper), states));
        }
        state
    }

    /// The weight under the cursor of the times.
    pub fn weight(&mut self) -> (weight: R)
        requires
            old(self).wf(),
            old(self).cursor.child.pos < old(self).cursor.child.bounds.1,
        ensures
            *final(self) == *old(self),
            weight == old(self).cursor.child.storage.diffs@[old(self).cursor.child.pos as int],
    {
        clone_weight(self.cursor.child.current_diff())
    }

    /// Whether the cursor stands on a key.
    pub fn key_valid(&self) -> (b: bool)
        ensures
            b == (self.cursor.pos < self.cursor.bounds.1),
    {
        self.cursor.valid()
    }

    /// Whether the cursor stands on the value of its key.
    pub fn val_valid(&self) -> (b: bool)
        ensures
            b == self.valid,
    {
        self.valid
    }

    /// Moves to the next key and onto its value.
    pub fn step_key(&mut self)
        requires
            old(self).wf(),
        ensures
            final(self).wf(),
            final(self).valid,
            final(self).cursor.storage == old(self).cursor.storage,
            final(self).cursor.bounds == old(self).cursor.bounds,
            old(self).cursor.pos < old(self).cursor.bounds.1 ==> final(self).cursor.pos == old(self).cursor.pos + 1,
            old(self).cursor.pos >= old(self).cursor.bounds.1 ==> final(self).cursor.pos == old(self).cursor.pos,
            final(self).cursor.pos < final(self).cursor.bounds.1 ==> final(self).cursor.child.pos
                == final(self).cursor.storage.offs@[final(self).cursor.pos as int],
    {
        self.cursor.step();
        self.valid = true;
    }

    /// Moves forward to the first key that is not before `key`, and onto
    /// its value.
    pub fn seek_key(&mut self, key: &K)
        requires
            old(self).wf(),
            lawful::<K>(),
        ensures
            final(self).wf(),
            final(self).valid,
            final(self).cursor.storage == old(self).cursor.storage,
            final(self).cursor.bounds == old(self).cursor.bounds,
            old(self).cursor.pos <= final(self).cursor.pos,
            forall|i: int|
                old(self).cursor.pos <= i < final(self).cursor.pos ==> key_lt(
                    #[trigger] final(self).cursor.storage.keys@[i],
                    *key,
                ),
            forall|i: int|
                final(self).cursor.pos <= i < final(self).cursor.bounds.1 ==> !key_lt(
                    #[trigger] final(self).cursor.storage.keys@[i],
                    *key,
                ),
            final(self).cursor.pos < final(self).cursor.bounds.1 ==> final(self).cursor.child.pos
                == final(self).cursor.storage.offs@[final(self).cursor.pos as int],
    {
        self.cursor.seek(key);
        self.valid = true;
    }

    /// The last key of the batch, if there is one.
    pub fn last_key(&mut self) -> (last: Option<&'s K>)
        requires
            old(self).wf(),
        ensures
            *final(self) == *old(self),
            old(self).cursor.bounds.1 > old(self).cursor.bounds.0 ==> last == Some(
                &old(self).cursor.storage.keys@[old(self).cursor.bounds.1 - 1],
            ),
            old(self).cursor.bounds.1 <= old(self).cursor.bounds.0 ==> last.is_none(),
    {
        self.cursor.last_key()
    }

    /// Moves off the value of the key: a key has one value.
    pub fn step_val(&mut self)
        ensures
            final(self).cursor == old(self).cursor,
            !final(self).valid,
    {
        self.valid = false;
    }

    /// Moves to the value `()`, which is where the cursor stands.
    pub fn seek_val(&mut self, _val: &())
        ensures
            *final(self) == *old(self),
    {
    }

    /// Moves off the value of the key unless `predicate` holds of it.
    pub fn seek_val_with<P: Fn(&()) -> bool>(&mut self, predicate: P)
        requires
            call_requires(predicate, (&(),)),
        ensures
            final(self).cursor == old(self).cursor,
            exists|holds: bool|
                call_ensures(predicate, (&(),), holds) && final(self).valid == (old(self).valid
                    && holds),
    {
        let holds = predicate(&());
        if !holds {
            self.valid = false;
        }
    }

    /// Moves back to the first key, and onto its value.
    pub fn rewind_keys(&mut self)
        requires
            old(self).wf(),
        ensures
            final(self).wf(),
            final(self).valid,
            final(self).cursor.storage == old(self).cursor.storage,
            final(self).cursor.bounds == old(self).cursor.bounds,
            final(self).cursor.pos == old(self).cursor.bounds.0,
            final(self).cursor.pos < final(self).cursor.bounds.1 ==> final(self).cursor.child.pos
                == final(self).cursor.storage.offs@[final(self).cursor.pos as int],
    {
        self.cursor.rewind();
        self.valid = true;
    }

    /// Moves back onto the value of the key.
    pub fn rewind_vals(&mut self)
        ensures
            final(self).cursor == old(self).cursor,
            final(self).valid,
    {
        self.valid = true;
    }
}

/// A builder for creating batches of one time from keys that arrive in
/// order.
pub struct OrdKeyBuilder<K, T, R> {
    pub time: T,
    pub builder: OrderedBuilder<K, ColumnLayerBuilder<T, R>>,
}

impl<K: Ord + Clone, T: Ord + Clone + Timestamp, R: MonoidValue> OrdKeyBuilder<K, T, R> {
    /// The builder below is well formed and every time in it is the time
    /// of this builder.
    pub open spec fn wf(&self) -> bool {
        &&& self.builder.wf()
        &&& forall|i: int|
            0 <= i < self.builder.vals.entries().len() ==> (#[trigger] self.builder.vals.entries()[i]).0
                == self.time
    }

    /// The weight of `key` at `time` in what has been built.
    pub open spec fn weight(&self, key: K, time: T) -> R {
        self.builder.weight(key, time)
    }

    /// A builder of a batch at `time` that holds nothing.
    pub fn new_builder(time: T) -> (builder: Self)
        ensures
            builder.wf(),
            builder.time == time,
            builder.builder.keys@.len() == 0,
            forall|k: K, t: T| #[trigger] builder.weight(k, t) == R::zero_spec(),
    {
        OrdKeyBuilder { time, builder: OrderedBuilder::new() }
    }

    /// A builder of a batch at `time` that holds nothing, with room for
    /// `capacity` keys.
    pub fn with_capacity(time: T, capacity: usize) -> (builder: Self)
        ensures
            builder.wf(),
            builder.time == time,
            builder.builder.keys@.len() == 0,
            forall|k: K, t: T| #[trigger] builder.weight(k, t) == R::zero_spec(),
    {
        OrdKeyBuilder { time, builder: OrderedBuilder::with_capacity(capacity) }
    }

    /// Makes room for `additional` more keys. What the builder holds
    /// stays as it is: its time, its keys and offsets, and the times and
    /// weights below them.
    pub fn reserve(&mut self, additional: usize)
        requires
            old(self).wf(),
        ensures
            final(self).wf(),
            final(self).time == old(self).time,
            final(self).builder.keys@ == old(self).builder.keys@,
            final(self).builder.offs@ == old(self).builder.offs@,
            final(self).builder.vals.keys@ == old(self).builder.vals.keys@,
            final(self).builder.vals.diffs@ == old(self).builder.vals.diffs@,
            final(self).builder.vals.sealed == old(self).builder.vals.sealed,
            forall|k: K, t: T| #[trigger] final(self).weight(k, t) == old(self).weight(k, t),
    {
        self.builder.reserve(additional);
        proof {
            assert(self.builder.vals.entries() == old(self).builder.vals.entries());
        }
    }

    /// Adds `tuple.0` with the weight `tuple.1` at the time of the
    /// builder. Keys arrive in an order that does not decrease; a key
    /// that arrives again adds to its weight.
    pub fn push(&mut self, tuple: (K, R))
        requires
            old(self).wf(),
            lawful::<K>(),
            lawful::<T>(),
            old(self).builder.accepts_key(tuple.0),
        ensures
            final(self).wf(),
            final(self).time == old(self).time,
            final(self).builder.is_open(),
            final(self).builder.keys@.last() == tuple.0,
            forall|k: K, t: T| #[trigger]
                final(self).weight(k, t) == old(self).weight(k, t).add_spec(
                    tuple_share((tuple.0, (old(self).time, tuple.1)), k, t),
                ),
    {
        let (key, diff) = tuple;
        let ghost before = self.builder.vals.entries();
        proof {
            // every time held is the time of the builder, so the new one is not before them
            let run = self.builder.vals.open();
            if run.len() > 0 {
                assert(run.last() == before[before.len() - 1]);
                assert(run.last().0 == self.time);
            }
            if self.builder.keys@.len() > 0 {
                lemma_lt_total(self.builder.keys@.last(), key);
            }
        }
        self.builder.push_tuple((key, (self.time.copy_time(), diff)));
        proof {
            assert forall|i: int| 0 <= i < self.builder.vals.entries().len() implies (
            #[trigger] self.builder.vals.entries()[i]).0 == self.time by {
                let now = self.builder.vals.keys@[i];
                if now != self.time {
                    assert(before[i].0 == self.time);
                }
            }
        }
    }
}

impl<K: Ord + Clone, T: Ord + Clone + Timestamp, R: MonoidValue> OrdKeyBuilder<K, T, R> {
    /// The batch of what was pushed. Its lower bound is the time of the
    /// builder; its upper bound is the next tick of the innermost clock,
    /// or nothing where the clock has no later tick.
    pub fn done(self) -> (batch: OrdKeyBatch<K, T, R>)
        requires
            self.wf(),
            lawful::<T>(),
        ensures
            batch.wf(),
            forall|k: K, t: T| #[trigger] batch.weight(k, t) == self.weight(k, t),
            forall|t: T| #[trigger] batch.lower.le_spec(&t) <==> self.time.le_spec(&t),
            !self.time.advance_spec(0).le_spec(&self.time) ==> forall|t: T| #[trigger]
                batch.upper.le_spec(&t) <==> self.time.advance_spec(0).le_spec(&t),
            self.time.advance_spec(0).le_spec(&self.time) ==> forall|t: T|
                !(#[trigger] batch.upper.le_spec(&t)),
            batch.in_bounds(),
    {
        proof {
            T::lemma_le_reflexive(self.time);
        }
        let time_next = self.time.advance(0);
        let upper = if !time_next.less_equal(&self.time) {
            Antichain::from_elem(time_next)
        } else {
            Antichain::new()
        };
        OrdKeyBatch { layer: self.builder.done(), lower: Antichain::from_elem(self.time), upper }
    }
}

impl<K: Ord + Clone, T: Ord + Clone + Timestamp, R: MonoidValue> OrdKeyBatch<K, T, R> {
    /// The batch that holds nothing, at no time.
    pub fn empty(time: T) -> (batch: Self)
        requires
            lawful::<T>(),
        ensures
            batch.wf(),
            batch.layer.keys@.len() == 0,
            forall|k: K, t: T| #[trigger] batch.weight(k, t) == R::zero_spec(),
            forall|t: T| #[trigger] batch.lower.le_spec(&t) <==> time.le_spec(&t),
            !time.advance_spec(0).le_spec(&time) ==> forall|t: T| #[trigger]
                batch.upper.le_spec(&t) <==> time.advance_spec(0).le_spec(&t),
            time.advance_spec(0).le_spec(&time) ==> forall|t: T|
                !(#[trigger] batch.upper.le_spec(&t)),
            batch.in_bounds(),
    {
        let time_next = time.advance(0);
        let upper = if !time_next.less_equal(&time) {
            Antichain::from_elem(time_next)
        } else {
            Antichain::new()
        };
        OrdKeyBatch { layer: OrderedLayer::empty(), lower: Antichain::from_elem(time), upper }
    }

    /// The batch of `tuples`, all at `time`: each key has the sum of the
    /// weights it occurs with, and the keys whose sum is zero are not in it.
    pub fn from_tuples(time: T, tuples: Vec<(K, R)>) -> (batch: Self)
        requires
            lawful::<K>(),
            lawful::<T>(),
        ensures
            batch.wf(),
            forall|k: K, t: T| #[trigger]
                batch.weight(k, t) == (if t == time {
                    weight_of(tuples@, k)
                } else {
                    R::zero_spec()
                }),
            forall|t: T| #[trigger] batch.lower.le_spec(&t) <==> time.le_spec(&t),
            !time.advance_spec(0).le_spec(&time) ==> forall|t: T| #[trigger]
                batch.upper.le_spec(&t) <==> time.advance_spec(0).le_spec(&t),
            time.advance_spec(0).le_spec(&time) ==> forall|t: T|
                !(#[trigger] batch.upper.le_spec(&t)),
            batch.in_bounds(),
    {
        let mut unordered: UnorderedBuilder<K, T, R> = UnorderedBuilder::with_capacity(
            tuples.len(),
        );
        assert(tuples@.subrange(0, 0) =~= Seq::<(K, R)>::empty());
        for tuple in it: tuples.into_iter()
            invariant
                it.seq() == tuples@,
                forall|k: K, t: T| #[trigger]
                    weight_of(unordered.vals@, (k, t)) == (if t == time {
                        weight_of(tuples@.subrange(0, it.index()), k)
                    } else {
                        R::zero_spec()
                    }),
        {
            let ghost at = it.index();
            let ghost held = unordered.vals@;
            let (key, diff) = tuple;
            unordered.push_tuple((key, (time.copy_time(), diff)));
            proof {
                assert(tuples@.subrange(0, at + 1) =~= tuples@.subrange(0, at).push(tuples@[at]));
                assert forall|k: K, t: T| #[trigger]
                    weight_of(unordered.vals@, (k, t)) == (if t == time {
                        weight_of(tuples@.subrange(0, at + 1), k)
                    } else {
                        R::zero_spec()
                    }) by {
                    lemma_weight_push(held, ((key, time), diff), (k, t));
                    lemma_weight_push(tuples@.subrange(0, at), tuples@[at], k);
                    assert(weight_of(held, (k, t)) == (if t == time {
                        weight_of(tuples@.subrange(0, at), k)
                    } else {
                        R::zero_spec()
                    }));
                    R::lemma_add_zero(weight_of(held, (k, t)));
                }
            }
        }
        proof {
            assert(tuples@.subrange(0, tuples@.len() as int) =~= tuples@);
        }
        let time_next = time.advance(0);
        let upper = if !time_next.less_equal(&time) {
            Antichain::from_elem(time_next)
        } else {
            Antichain::new()
        };
        let batch = OrdKeyBatch { layer: unordered.done(), lower: Antichain::from_elem(time), upper };
        proof {
            T::lemma_le_reflexive(time);
            assert forall|p: int| 0 <= p < batch.layer.vals.entries().len() implies (
            #[trigger] batch.layer.vals.entries()[p]).0 == time by {
                let i = batch.layer.lemma_entry_weighs(p);
                let t = batch.layer.vals.entries()[p].0;
                assert(batch.layer.weight(batch.layer.keys@[i], t) == weight_of(
                    unordered.vals@,
                    (batch.layer.keys@[i], t),
                ));
            }
        }
        batch
    }

    /// The batch of `keys`, all at `time`.
    pub fn from_keys(time: T, keys: Vec<(K, R)>) -> (batch: Self)
        requires
            lawful::<K>(),
            lawful::<T>(),
        ensures
            batch.wf(),
            forall|k: K, t: T| #[trigger]
                batch.weight(k, t) == (if t == time {
                    weight_of(keys@, k)
                } else {
                    R::zero_spec()
                }),
            forall|t: T| #[trigger] batch.lower.le_spec(&t) <==> time.le_spec(&t),
            !time.advance_spec(0).le_spec(&time) ==> forall|t: T| #[trigger]
                batch.upper.le_spec(&t) <==> time.advance_spec(0).le_spec(&t),
            time.advance_spec(0).le_spec(&time) ==> forall|t: T|
                !(#[trigger] batch.upper.le_spec(&t)),
            batch.in_bounds(),
    {
        Self::from_tuples(time, keys)
    }
}

/// The batch in which every key has weight zero at every time.
pub open spec fn zero_timed<K, T, R: MonoidValue>() -> spec_fn(K, T) -> R {
    |k: K, t: T| R::zero_spec()
}

/// The batch in which every key has, at every time, the sum of its
/// weights in `a` and `b`.
pub open spec fn added_timed<K, T, R: MonoidValue>(
    a: spec_fn(K, T) -> R,
    b: spec_fn(K, T) -> R,
) -> spec_fn(K, T) -> R {
    |k: K, t: T| a(k, t).add_spec(b(k, t))
}

impl<K: Ord + Clone, T: Ord + Clone + Timestamp, R: MonoidValue> OrdKeyBatch<K, T, R> {
    /// The batch as a function from keys and times to weights.
    pub open spec fn weights(&self) -> spec_fn(K, T) -> R {
        |k: K, t: T| self.weight(k, t)
    }

    /// A batch without keys is one in which every weight is zero.
    pub proof fn lemma_empty_is_zero(&self)
        requires
            self.wf(),
            lawful::<K>(),
            lawful::<T>(),
        ensures
            self.layer.keys@.len() == 0 <==> self.weights() == zero_timed::<K, T, R>(),
    {
        if self.layer.keys@.len() == 0 {
            assert forall|k: K, t: T| #[trigger] self.weight(k, t) == R::zero_spec() by {
                assert(self.layer.level(t) =~= Seq::<(K, R)>::empty());
            }
            assert(self.weights() =~= zero_timed::<K, T, R>());
        } else {
            let key = self.layer.keys@[0];
            let run = span(self.layer.offs@, self.layer.vals.entries(), 0);
            assert(consolidated(run));
            assert(self.layer.offs@[0] < self.layer.offs@[1]);
            let time = run[0].0;
            lemma_weight_at(run, 0);
            let level = self.layer.level(time);
            assert forall|i: int, j: int| 0 <= i < j < level.len() implies key_lt(
                level[i].0,
                level[j].0,
            ) by {
                assert(key_lt(self.layer.keys@[i], self.layer.keys@[j]));
            }
            lemma_weight_at(level, 0);
            assert(self.weight(key, time) == run[0].1);
            assert(self.weights()(key, time) != zero_timed::<K, T, R>()(key, time));
        }
    }

    /// The keys of the batch, each with the sum of the weights that it has
    /// at all times, in the order of the keys. Of a batch at one time
    /// these are its pairs: the batch made of them at that time is the
    /// batch again.
    pub fn to_keys(&self) -> (pairs: Vec<(K, R)>)
        requires
            self.wf(),
            faithful_clone::<K>(),
        ensures
            pairs@ == key_sums(self.layer.keys@, self.layer.offs@, self.layer.vals.entries()),
    {
        let n = self.layer.keys.len();
        let mut pairs: Vec<(K, R)> = Vec::with_capacity(n);
        let ghost child = self.layer.vals.entries();
        let ghost sums = key_sums(self.layer.keys@, self.layer.offs@, child);
        let mut i: usize = 0;
        while i < n
            invariant
                self.wf(),
                faithful_clone::<K>(),
                n == self.layer.keys@.len(),
                i <= n,
                child == self.layer.vals.entries(),
                sums == key_sums(self.layer.keys@, self.layer.offs@, child),
                pairs@ == sums.subrange(0, i as int),
            decreases n - i,
        {
            let ghost run = span(self.layer.offs@, child, i as int);
            proof {
                assert(self.layer.offs@[i as int] < self.layer.offs@[i + 1]);
                assert(i + 1 < n ==> self.layer.offs@[i + 1] < self.layer.offs@[n as int]);
                assert(run.subrange(0, 0) =~= Seq::<(T, R)>::empty());
            }
            let first = self.layer.offs[i];
            let end = self.layer.offs[i + 1];
            let mut sum = R::zero();
            let mut at: usize = first;
            while at < end
                invariant
                    self.wf(),
                    child == self.layer.vals.entries(),
                    first <= at <= end <= child.len(),
                    run == child.subrange(first as int, end as int),
                    sum == weight_sum(run.subrange(0, at - first)),
                decreases end - at,
            {
                proof {
                    let seen = run.subrange(0, at - first + 1);
                    assert(seen.drop_last() =~= run.subrange(0, at - first));
                    assert(seen.last() == child[at as int]);
                }
                sum.add_assign_by_ref(&self.layer.vals.diffs[at]);
                at += 1;
            }
            proof {
                assert(run.subrange(0, run.len() as int) =~= run);
            }
            pairs.push((duplicate(&self.layer.keys[i]), sum));
            proof {
                assert(pairs@ =~= sums.subrange(0, i + 1));
            }
            i += 1;
        }
        proof {
            assert(sums.subrange(0, n as int) =~= sums);
        }
        pairs
    }

    /// A copy of the batch.
    pub fn copy(&self) -> (copy: Self)
        requires
            self.wf(),
            faithful_clone::<K>(),
            faithful_clone::<T>(),
        ensures
            copy.wf(),
            copy.layer.keys@ == self.layer.keys@,
            copy.layer.offs@ == self.layer.offs@,
            copy.layer.vals.entries() == self.layer.vals.entries(),
            copy.lower.elements@ == self.lower.elements@,
            copy.upper.elements@ == self.upper.elements@,
            copy.weights() == self.weights(),
    {
        let copy = OrdKeyBatch {
            layer: OrderedLayer {
                keys: duplicate_all(&self.layer.keys),
                offs: duplicate_all(&self.layer.offs),
                vals: self.layer.vals.copy(),
            },
            lower: self.lower.copy(),
            upper: self.upper.copy(),
        };
        proof {
            assert forall|k: K, t: T| #[trigger] copy.weight(k, t) == self.weight(k, t) by {
                assert(copy.layer.level(t) =~= self.layer.level(t));
            }
            assert(copy.weights() =~= self.weights());
        }
        copy
    }
}

impl<K: Ord + Clone, T: Ord + Clone + Timestamp, R: MonoidValue> NumEntries for OrdKeyBatch<K, T, R> {
    open spec fn entries_shallow(&self) -> nat {
        self.layer.keys@.len()
    }

    open spec fn entries_deep(&self) -> nat {
        self.layer.vals.keys@.len()
    }

    fn num_entries_shallow(&self) -> (n: usize) {
        self.layer.keys.len()
    }

    fn num_entries_deep(&self) -> (n: usize) {
        self.layer.vals.keys.len()
    }
}

impl<K: Ord + Clone, T: Ord + Clone + Timestamp, R: MonoidValue> HasZero for OrdKeyBatch<K, T, R> {
    type Model = spec_fn(K, T) -> R;

    open spec fn usable() -> bool {
        lawful::<K>() && lawful::<T>() && faithful_clone::<K>() && faithful_clone::<T>()
    }

    open spec fn wf(&self) -> bool {
        self.layer.wf() && self.lower.wf() && self.upper.wf()
    }

    open spec fn model(&self) -> spec_fn(K, T) -> R {
        self.weights()
    }

    open spec fn zero_model() -> spec_fn(K, T) -> R {
        zero_timed::<K, T, R>()
    }

    fn zero() -> (z: Self) {
        let z = Self::empty(T::clock_start());
        proof {
            assert(z.weights() =~= zero_timed::<K, T, R>());
        }
        z
    }

    fn is_zero(&self) -> (b: bool) {
        proof {
            self.lemma_empty_is_zero();
        }
        self.is_empty()
    }

    fn duplicate(&self) -> (copy: Self) {
        self.copy()
    }
}

impl<K: Ord + Clone, T: Ord + Clone + Timestamp, R: MonoidValue> AddByRef for OrdKeyBatch<K, T, R> {
    open spec fn add_model(a: spec_fn(K, T) -> R, b: spec_fn(K, T) -> R) -> spec_fn(K, T) -> R {
        added_timed(a, b)
    }

    proof fn lemma_add_model_commutative(a: spec_fn(K, T) -> R, b: spec_fn(K, T) -> R) {
        assert forall|k: K, t: T| #[trigger]
            added_timed(a, b)(k, t) == added_timed(b, a)(k, t) by {
            R::lemma_add_commutative(a(k, t), b(k, t));
        }
        assert(added_timed(a, b) =~= added_timed(b, a));
    }

    proof fn lemma_add_model_associative(
        a: spec_fn(K, T) -> R,
        b: spec_fn(K, T) -> R,
        c: spec_fn(K, T) -> R,
    ) {
        assert forall|k: K, t: T| #[trigger]
            added_timed(added_timed(a, b), c)(k, t) == added_timed(a, added_timed(b, c))(
                k,
                t,
            ) by {
            R::lemma_add_associative(a(k, t), b(k, t), c(k, t));
        }
        assert(added_timed(added_timed(a, b), c) =~= added_timed(a, added_timed(b, c)));
    }

    proof fn lemma_add_model_zero(a: spec_fn(K, T) -> R) {
        assert forall|k: K, t: T| #[trigger]
            added_timed(a, zero_timed::<K, T, R>())(k, t) == a(k, t) by {
            R::lemma_add_zero(a(k, t));
        }
        assert(added_timed(a, zero_timed::<K, T, R>()) =~= a);
    }

    fn add_by_ref(&self, other: &Self) -> (sum: Self) {
        let sum = self.merge(other);
        proof {
            assert(sum.weights() =~= added_timed(self.weights(), other.weights()));
        }
        sum
    }

    fn add_assign_by_ref(&mut self, other: &Self) {
        let sum = self.merge(other);
        proof {
            assert(sum.weights() =~= added_timed(self.weights(), other.weights()));
        }
        *self = sum;
    }

    fn plus(self, other: Self) -> (sum: Self) {
        let sum = self.merge(&other);
        proof {
            assert(sum.weights() =~= added_timed(self.weights(), other.weights()));
        }
        sum
    }
}

/// An owning view of a batch that hands out its keys one by one, each
/// with its `(time, weight)` pairs.
pub struct OrdKeyConsumer<K, T, R> {
    layer: OrderedLayer<K, ColumnLayer<T, R>>,
    position: usize,
}

impl<K: Ord + Clone, T: Ord + Clone + Timestamp, R: MonoidValue> OrdKeyBatch<K, T, R> {
    /// The batch as a consumer, placed on its first key.
    pub fn consumer(self) -> (consumer: OrdKeyConsumer<K, T, R>)
        requires
            self.wf(),
        ensures
            consumer.wf(),
            consumer.layer() == self.layer,
            consumer.position() == 0,
    {
        OrdKeyConsumer { layer: self.layer, position: 0 }
    }
}

impl<K: Ord + Clone, T: Ord + Clone + Timestamp, R: MonoidValue> OrdKeyConsumer<K, T, R> {
    /// The layer that is consumed.
    pub closed spec fn layer(&self) -> OrderedLayer<K, ColumnLayer<T, R>> {
        self.layer
    }

    /// The number of keys handed out or passed over.
    pub closed spec fn position(&self) -> usize {
        self.position
    }

    /// The layer is well formed and the position is among its keys or at
    /// their end.
    pub open spec fn wf(&self) -> bool {
        self.layer().wf() && self.position() <= self.layer().keys@.len()
    }

    /// Whether a key is left.
    pub fn key_valid(&self) -> (valid: bool)
        ensures
            valid == (self.position() < self.layer().keys@.len()),
    {
        self.position < self.layer.keys.len()
    }

    /// The next key, which stays.
    pub fn peek_key(&self) -> (key: &K)
        requires
            self.position() < self.layer().keys@.len(),
        ensures
            *key == self.layer().keys@[self.position() as int],
    {
        &self.layer.keys[self.position]
    }

    /// Hands out the next key and the consumer of its values.
    pub fn next_key(&mut self) -> (next: (K, OrdKeyValueConsumer<'_, K, T, R>))
        requires
            old(self).wf(),
            old(self).position() < old(self).layer().keys@.len(),
            faithful_clone::<K>(),
        ensures
            final(self).wf(),
            final(self).layer() == old(self).layer(),
            final(self).position() == old(self).position() + 1,
            next.0 == old(self).layer().keys@[old(self).position() as int],
            next.1.wf(),
            next.1.storage() == old(self).layer().vals,
            next.1.position() == old(self).layer().offs@[old(self).position() as int],
            next.1.end() == old(self).layer().offs@[old(self).position() + 1],
    {
        let at = self.position;
        let length = self.layer.keys.len();
        let key = duplicate(&self.layer.keys[at]);
        let lower = self.layer.offs[at];
        let upper = self.layer.offs[at + 1];
        proof {
            assert(self.layer.offs@[at as int] < self.layer.offs@[at + 1]);
            assert(at + 1 < length ==> self.layer.offs@[at + 1] < self.layer.offs@[length as int]);
        }
        self.position = at + 1;
        let values = OrdKeyValueConsumer::new(&self.layer.vals, lower, upper);
        (key, values)
    }

    /// Passes over the keys before `key`.
    pub fn seek_key(&mut self, key: &K)
        requires
            old(self).wf(),
            lawful::<K>(),
        ensures
            final(self).wf(),
            final(self).layer() == old(self).layer(),
            old(self).position() <= final(self).position(),
            forall|i: int|
                old(self).position() <= i < final(self).position() ==> key_lt(
                    #[trigger] final(self).layer().keys@[i],
                    *key,
                ),
            final(self).position() < final(self).layer().keys@.len() ==> !key_lt(
                final(self).layer().keys@[final(self).position() as int],
                *key,
            ),
    {
        let length = self.layer.keys.len();
        while self.position < length && less(&self.layer.keys[self.position], key)
            invariant
                lawful::<K>(),
                self.wf(),
                self.layer == old(self).layer,
                length == self.layer.keys@.len(),
                old(self).position <= self.position,
                forall|i: int|
                    old(self).position <= i < self.position ==> key_lt(
                        #[trigger] self.layer.keys@[i],
                        *key,
                    ),
            decreases length - self.position,
        {
            self.position += 1;
        }
    }
}

/// The `(time, weight)` pairs of one key of a consumer, handed out one by
/// one.
pub struct OrdKeyValueConsumer<'a, K, T, R> {
    storage: &'a ColumnLayer<T, R>,
    position: usize,
    end: usize,
    __type: PhantomData<K>,
}

impl<'a, K, T: Ord + Clone, R: MonoidValue> OrdKeyValueConsumer<'a, K, T, R> {
    /// The layer that the pairs are in.
    pub closed spec fn storage(&self) -> ColumnLayer<T, R> {
        *self.storage
    }

    /// The position of the next pair.
    pub closed spec fn position(&self) -> usize {
        self.position
    }

    /// The position behind the last pair.
    pub closed spec fn end(&self) -> usize {
        self.end
    }

    /// The pairs left lie in the layer.
    pub open spec fn wf(&self) -> bool {
        &&& self.storage().wf()
        &&& self.position() <= self.end() <= self.storage().entries().len()
    }

    /// The consumer of the pairs of `storage` at `position..end`.
    pub fn new(storage: &'a ColumnLayer<T, R>, position: usize, end: usize) -> (consumer: Self)
        ensures
            consumer.storage() == *storage,
            consumer.position() == position,
            consumer.end() == end,
    {
        Self { storage, position, end, __type: PhantomData }
    }

    /// Whether a pair is left.
    pub fn value_valid(&self) -> (valid: bool)
        ensures
            valid == (self.position() < self.end()),
    {
        self.position < self.end
    }

    /// Hands out the next pair: the value `()`, the weight and the time.
    pub fn next_value(&mut self) -> (next: ((), R, T))
        requires
            old(self).wf(),
            old(self).position() < old(self).end(),
            faithful_clone::<T>(),
        ensures
            final(self).wf(),
            final(self).storage() == old(self).storage(),
            final(self).end() == old(self).end(),
            final(self).position() == old(self).position() + 1,
            next.1 == old(self).storage().diffs@[old(self).position() as int],
            next.2 == old(self).storage().keys@[old(self).position() as int],
    {
        let at = self.position;
        let time = duplicate(&self.storage.keys[at]);
        let diff = clone_weight(&self.storage.diffs[at]);
        self.position = at + 1;
        ((), diff, time)
    }

    /// The number of pairs left.
    pub fn remaining_values(&self) -> (left: usize)
        requires
            self.wf(),
        ensures
            left == self.end() - self.position(),
    {
        self.end - self.position
    }
}

/// The layer seen from its keys alone: each key with the sum of the
/// weights that it has at all times.
pub open spec fn key_sums<K, T, R: MonoidValue>(
    keys: Seq<K>,
    offs: Seq<usize>,
    child: Seq<(T, R)>,
) -> Seq<(K, R)> {
    Seq::new(keys.len(), |i: int| (keys[i], weight_sum(span(offs, child, i))))
}

/// Taking times back changes no weight, so it keeps the sum of the
/// weights.
pub proof fn lemma_receded_sum<T: Lattice, R: MonoidValue>(run: Seq<(T, R)>, frontier: T)
    ensures
        weight_sum(receded(run, frontier)) == weight_sum(run),
    decreases run.len(),
{
    if run.len() > 0 {
        assert(receded(run, frontier).drop_last() =~= receded(run.drop_last(), frontier));
        lemma_receded_sum(run.drop_last(), frontier);
    }
}

/// Taking the times of a batch back keeps, for every key, the sum of its
/// weights: where `after` holds what `before` holds with its times taken
/// back to `frontier`, each key has in `after` the sum of the weights
/// that it has in `before`.
pub proof fn lemma_recede_keeps_sums<K: Ord + Clone, T: Ord + Clone + Timestamp, R: MonoidValue>(
    before: OrdKeyBatch<K, T, R>,
    after: OrdKeyBatch<K, T, R>,
    frontier: T,
    k: K,
)
    requires
        lawful::<K>(),
        lawful::<T>(),
        before.wf(),
        after.wf(),
        forall|key: K, t: T| #[trigger]
            after.weight(key, t) == before.receded_weight(frontier, key, t),
    ensures
        weight_of(key_sums(after.layer.keys@, after.layer.offs@, after.layer.vals.entries()), k)
            == weight_of(
            key_sums(before.layer.keys@, before.layer.offs@, before.layer.vals.entries()),
            k,
        ),
{
    let keys0 = before.layer.keys@;
    let offs0 = before.layer.offs@;
    let child0 = before.layer.vals.entries();
    let back = receded(child0, frontier);
    let keys1 = after.layer.keys@;
    let offs1 = after.layer.offs@;
    let child1 = after.layer.vals.entries();
    let sums0 = key_sums(keys0, offs0, child0);
    let sums1 = key_sums(keys1, offs1, child1);
    // what the key weighs at each time, before and after
    let was_at = |t: T| weight_of(key_level(keys0, offs0, back, t), k);
    let now_at = |t: T| weight_of(key_level(keys1, offs1, child1, t), k);
    assert forall|t: T| #[trigger] now_at(t) == was_at(t) by {
        assert(after.weight(k, t) == before.receded_weight(frontier, k, t));
    }
    let in0 = exists|i: int| 0 <= i < keys0.len() && #[trigger] keys0[i] == k;
    let in1 = exists|j: int| 0 <= j < keys1.len() && #[trigger] keys1[j] == k;
    if in0 {
        let i = choose|i: int| 0 <= i < keys0.len() && #[trigger] keys0[i] == k;
        let run = span(offs0, child0, i);
        assert(offs0[i] < offs0[i + 1]);
        assert(i + 1 < keys0.len() ==> offs0[i + 1] < offs0[keys0.len() as int]);
        let run_back = span(offs0, back, i);
        assert(run_back =~= receded(run, frontier));
        lemma_receded_sum(run, frontier);
        lemma_level_at(sums0, keys0, i);
        assert forall|t: T| #[trigger] was_at(t) == weight_of(run_back, t) by {
            lemma_level_at(key_level(keys0, offs0, back, t), keys0, i);
        }
        if in1 {
            let j = choose|j: int| 0 <= j < keys1.len() && #[trigger] keys1[j] == k;
            let kept = span(offs1, child1, j);
            lemma_level_at(sums1, keys1, j);
            assert forall|t: T| #[trigger] weight_of(kept, t) == weight_of(run_back, t) by {
                lemma_level_at(key_level(keys1, offs1, child1, t), keys1, j);
                assert(now_at(t) == was_at(t));
            }
            lemma_weight_sum_kept(kept, run_back);
        } else {
            lemma_level_absent(sums1, keys1, k);
            assert forall|t: T| #[trigger] weight_of(run_back, t) == R::zero_spec() by {
                lemma_level_absent(key_level(keys1, offs1, child1, t), keys1, k);
                assert(now_at(t) == was_at(t));
            }
            lemma_weight_sum_of_zero(run_back);
        }
    } else {
        lemma_level_absent(sums0, keys0, k);
        if in1 {
            let j = choose|j: int| 0 <= j < keys1.len() && #[trigger] keys1[j] == k;
            let kept = span(offs1, child1, j);
            lemma_level_at(sums1, keys1, j);
            assert forall|t: T| #[trigger] weight_of(kept, t) == R::zero_spec() by {
                lemma_level_at(key_level(keys1, offs1, child1, t), keys1, j);
                lemma_level_absent(key_level(keys0, offs0, back, t), keys0, k);
                assert(now_at(t) == was_at(t));
            }
            lemma_weight_sum_of_zero(kept);
        } else {
            lemma_level_absent(sums1, keys1, k);
        }
    }
}

/// Every time of a batch whose times were taken back is the meet of a
/// time of the batch with the frontier: where a key has a weight at a
/// time after its times were taken back to `frontier`, that time is the
/// meet with `frontier` of a time of the batch.
pub proof fn lemma_receded_times<K: Ord + Clone, T: Ord + Clone + Timestamp, R: MonoidValue>(
    before: OrdKeyBatch<K, T, R>,
    frontier: T,
    k: K,
    t: T,
)
    requires
        before.wf(),
        before.receded_weight(frontier, k, t) != R::zero_spec(),
    ensures
        exists|i: int|
            0 <= i < before.layer.vals.entries().len() && (
            #[trigger] before.layer.vals.entries()[i]).0.meet_spec(&frontier) == t,
{
    let child = before.layer.vals.entries();
    let back = receded(child, frontier);
    let level = key_level(before.layer.keys@, before.layer.offs@, back, t);
    if !exists|i: int| 0 <= i < child.len() && (#[trigger] child[i]).0.meet_spec(&frontier) == t {
        assert forall|j: int| 0 <= j < level.len() implies (#[trigger] level[j]).1
            == R::zero_spec() by {
            let offs = before.layer.offs@;
            let run = span(offs, back, j);
            assert(offs[j] < offs[j + 1]);
            assert(j + 1 < before.layer.keys@.len() ==> offs[j + 1] < offs[before.layer.keys@.len() as int]);
            assert forall|p: int| 0 <= p < run.len() implies (#[trigger] run[p]).0 != t by {
                let at = offs[j] + p;
                assert(run[p] == back[at]);
                assert(child[at].0.meet_spec(&frontier) != t);
            }
            lemma_weight_absent(run, t);
        }
        lemma_weight_all_zero(level, k);
    }
}

/// Every time of a batch whose times were taken back is at or before the
/// frontier: where a key has a weight at a time after its times were
/// taken back to `frontier`, that time is at or before `frontier`.
pub proof fn lemma_receded_before_frontier<K: Ord + Clone, T: Ord + Clone + Timestamp, R: MonoidValue>(
    before: OrdKeyBatch<K, T, R>,
    frontier: T,
    k: K,
    t: T,
)
    requires
        before.wf(),
        before.receded_weight(frontier, k, t) != R::zero_spec(),
    ensures
        t.le_spec(&frontier),
{
    lemma_receded_times(before, frontier, k, t);
    let i = choose|i: int|
        0 <= i < before.layer.vals.entries().len() && (
        #[trigger] before.layer.vals.entries()[i]).0.meet_spec(&frontier) == t;
    T::lemma_meet_greatest(before.layer.vals.entries()[i].0, frontier, t);
}

/// Taking times back keeps them before the upper bound: where `after`
/// holds what `before` holds with its times taken back to `frontier`,
/// under the same upper bound, and no time of `before` is at or after
/// that bound, no time of `after` is.
pub proof fn lemma_receded_below_upper<K: Ord + Clone, T: Ord + Clone + Timestamp, R: MonoidValue>(
    before: OrdKeyBatch<K, T, R>,
    after: OrdKeyBatch<K, T, R>,
    frontier: T,
)
    requires
        lawful::<K>(),
        lawful::<T>(),
        before.wf(),
        after.wf(),
        after.upper == before.upper,
        before.before_upper(),
        forall|k: K, t: T| #[trigger] after.weight(k, t) == before.receded_weight(frontier, k, t),
    ensures
        after.before_upper(),
{
    assert forall|p: int| 0 <= p < after.layer.vals.entries().len() implies !after.upper.le_spec(
        &(#[trigger] after.layer.vals.entries()[p]).0,
    ) by {
        let t = after.layer.vals.entries()[p].0;
        let i = after.layer.lemma_entry_weighs(p);
        let k = after.layer.keys@[i];
        assert(after.weight(k, t) == before.receded_weight(frontier, k, t));
        lemma_receded_times(before, frontier, k, t);
        let q = choose|q: int|
            0 <= q < before.layer.vals.entries().len() && (
            #[trigger] before.layer.vals.entries()[q]).0.meet_spec(&frontier) == t;
        let t0 = before.layer.vals.entries()[q].0;
        T::lemma_meet_greatest(t0, frontier, t);
        if after.upper.le_spec(&t) {
            let u = choose|u: int|
                0 <= u < after.upper.elements@.len() && (#[trigger] after.upper.elements@[u]).le_spec(
                    &t,
                );
            T::lemma_le_transitive(after.upper.elements@[u], t, t0);
            assert(before.upper.le_spec(&t0));
        }
    }
}

/// Making a batch of the pairs of a batch gives the batch again: where
/// `first` is a batch of `pairs` at `time`, and `second` is a batch at
/// `time` of the keys of `first` with their weights, the two hold the
/// same keys, offsets, times and weights.
pub proof fn lemma_from_keys_round_trip<K: Ord + Clone, T: Ord + Clone + Timestamp, R: MonoidValue>(
    pairs: Seq<(K, R)>,
    time: T,
    first: OrdKeyBatch<K, T, R>,
    second: OrdKeyBatch<K, T, R>,
)
    requires
        lawful::<K>(),
        lawful::<T>(),
        first.wf(),
        second.wf(),
        forall|k: K, t: T| #[trigger]
            first.weight(k, t) == (if t == time {
                weight_of(pairs, k)
            } else {
                R::zero_spec()
            }),
        forall|k: K, t: T| #[trigger]
            second.weight(k, t) == (if t == time {
                weight_of(
                    key_sums(first.layer.keys@, first.layer.offs@, first.layer.vals.entries()),
                    k,
                )
            } else {
                R::zero_spec()
            }),
    ensures
        same_columns(first.layer, second.layer),
{
    let layer = first.layer;
    let child = layer.vals.entries();
    let sums = key_sums(layer.keys@, layer.offs@, child);
    assert forall|k: K, t: T| #[trigger] first.layer.weight(k, t) == second.layer.weight(k, t) by {
        assert(second.weight(k, t) == (if t == time {
            weight_of(sums, k)
        } else {
            R::zero_spec()
        }));
        assert(first.weight(k, t) == (if t == time {
            weight_of(pairs, k)
        } else {
            R::zero_spec()
        }));
        if t == time {
            if exists|i: int| 0 <= i < layer.keys@.len() && #[trigger] layer.keys@[i] == k {
                let i = choose|i: int| 0 <= i < layer.keys@.len() && #[trigger] layer.keys@[i] == k;
                let run = span(layer.offs@, child, i);
                assert(layer.offs@[i] < layer.offs@[i + 1]);
                assert(i + 1 < layer.keys@.len() ==> layer.offs@[i + 1] < layer.offs@[layer.keys@.len() as int]);
                assert(consolidated(run));
                // every time of the run is `time`, so the run is one pair
                assert forall|j: int| 0 <= j < run.len() implies (#[trigger] run[j]).0 == time by {
                    assert(run[j] == child[layer.offs@[i] + j]);
                    let at = layer.lemma_entry_weighs(layer.offs@[i] + j);
                    assert(first.weight(layer.keys@[at], run[j].0) != R::zero_spec());
                }
                if run.len() > 1 {
                    assert(run[0].0 == time && run[1].0 == time);
                    assert(key_lt(run[0].0, run[1].0));
                    lemma_lt_total(run[0].0, run[1].0);
                }
                assert(run.len() == 1);
                assert(run.drop_last() =~= Seq::<(T, R)>::empty());
                assert(weight_sum(run.drop_last()) == R::zero_spec());
                assert(run.last() == run[0]);
                assert(weight_sum(run) == R::zero_spec().add_spec(run[0].1));
                lemma_zero_add(run[0].1);
                lemma_weight_at(run, 0);
                lemma_level_at(layer.level(time), layer.keys@, i);
                lemma_level_at(sums, layer.keys@, i);
            } else {
                lemma_level_absent(sums, layer.keys@, k);
                lemma_level_absent(layer.level(time), layer.keys@, k);
            }
        }
    }
    lemma_layer_unique(first.layer, second.layer);
}

} // verus!
