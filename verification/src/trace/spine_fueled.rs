//! Traces: collections of batches that grow by insertion and are kept
//! small by merging.
//!
//! A trace holds its batches from the largest to the smallest. A batch
//! that is inserted is merged with the batch before it as long as that
//! batch is less than twice its size, so that the sizes fall by halves
//! and the number of batches that are not empty stays logarithmic in the
//! number of tuples. The cursor of a trace walks the cursors of its
//! batches together, so that the keys are met in one order.

pub mod cursor;

use vstd::prelude::*;
use vstd::arithmetic::power2::lemma2_to64;
use vstd::arithmetic::power2::lemma_pow2_unfold;
use vstd::arithmetic::power2::pow2;
use crate::algebra::AddByRef;
use crate::algebra::HasZero;
use crate::algebra::MonoidValue;
use crate::algebra::NumEntries;
use crate::order::lawful;
use crate::time::Timestamp;
use crate::trace::ord::key_batch::OrdKeyBatch;

verus! {

/// A trace whose batches are of type `B`.
pub struct Spine<B> {
    /// The batches, from the largest to the smallest.
    pub batches: Vec<B>,
    /// Whether a batch that was not empty has been inserted since the
    /// flag was last cleared.
    pub dirty: bool,
}

/// A trace of batches with times.
pub trait Trace {
    /// The times of the batches.
    type Time;
}

impl<K, T, R> Trace for Spine<OrdKeyBatch<K, T, R>> {
    type Time = T;
}

/// What the batches stand for together: their sum.
pub open spec fn total<B: AddByRef>(batches: Seq<B>) -> B::Model
    decreases batches.len(),
{
    if batches.len() == 0 {
        B::zero_model()
    } else {
        B::add_model(total(batches.drop_last()), batches.last().model())
    }
}

/// Each batch is at least twice as large as the one behind it.
pub open spec fn tiered<B: NumEntries>(batches: Seq<B>) -> bool {
    forall|i: int|
        0 <= i < batches.len() - 1 ==> 2 * (#[trigger] batches[i + 1]).entries_deep()
            <= batches[i].entries_deep()
}

/// In a trace with tiers, the first batch has at least as many tuples as
/// the batch at position `i`, times two to the power of `i`.
pub proof fn lemma_tiered_sizes<B: NumEntries>(batches: Seq<B>, i: int)
    requires
        tiered(batches),
        0 <= i < batches.len(),
    ensures
        batches[0].entries_deep() >= pow2(i as nat) * batches[i].entries_deep(),
    decreases i,
{
    if i == 0 {
        lemma2_to64();
    } else {
        assert(2 * batches[(i - 1) + 1].entries_deep() <= batches[i - 1].entries_deep());
        lemma_tiered_sizes(batches, i - 1);
        lemma_pow2_unfold(i as nat);
        let below = pow2((i - 1) as nat);
        assert(below * (2 * batches[i].entries_deep()) <= below * batches[i - 1].entries_deep())
            by (nonlinear_arith)
            requires
                2 * batches[i].entries_deep() <= batches[i - 1].entries_deep(),
        ;
        assert(below * (2 * batches[i].entries_deep()) == (2 * below) * batches[i].entries_deep())
            by (nonlinear_arith);
    }
}

impl<B: AddByRef + NumEntries> Spine<B> {
    /// Every batch is a valid one.
    pub open spec fn wf(&self) -> bool {
        forall|i: int| 0 <= i < self.batches@.len() ==> (#[trigger] self.batches@[i]).wf()
    }

    /// What the trace stands for: the sum of its batches.
    pub open spec fn model(&self) -> B::Model {
        total(self.batches@)
    }

    /// A trace without batches.
    pub fn new() -> (spine: Self)
        ensures
            spine.wf(),
            spine.batches@.len() == 0,
            !spine.dirty,
            spine.model() == B::zero_model(),
            tiered(spine.batches@),
    {
        Spine { batches: Vec::new(), dirty: false }
    }

    /// Whether a batch that was not empty has been inserted since the
    /// flag was last cleared.
    pub fn dirty(&self) -> (dirty: bool)
        ensures
            dirty == self.dirty,
    {
        self.dirty
    }

    /// Clears the flag.
    pub fn clear_dirty_flag(&mut self)
        ensures
            final(self).batches == old(self).batches,
            !final(self).dirty,
    {
        self.dirty = false;
    }

    /// The number of batches.
    pub fn num_batches(&self) -> (n: usize)
        ensures
            n == self.batches@.len(),
    {
        self.batches.len()
    }

    /// Adds a batch to the trace. An empty batch changes nothing; another
    /// one sets the flag, and is merged with the batches before it as
    /// long as they are less than twice its size.
    pub fn insert(&mut self, batch: B)
        requires
            B::usable(),
            old(self).wf(),
            batch.wf(),
        ensures
            final(self).wf(),
            final(self).model() == B::add_model(old(self).model(), batch.model()),
            final(self).dirty == (old(self).dirty || batch.model() != B::zero_model()),
            tiered(old(self).batches@) ==> tiered(final(self).batches@),
            final(self).batches@.len() <= old(self).batches@.len() + 1,
    {
        if batch.is_zero() {
            proof {
                B::lemma_add_model_zero(self.model());
            }
            return ;
        }
        self.dirty = true;
        let ghost goal = B::add_model(self.model(), batch.model());
        self.batches.push(batch);
        proof {
            assert(self.batches@.drop_last() =~= old(self).batches@);
        }
        while self.batches.len() >= 2 && self.batches[self.batches.len() - 1].num_entries_deep()
            > self.batches[self.batches.len() - 2].num_entries_deep() / 2
            invariant
                B::usable(),
                self.wf(),
                self.dirty,
                self.batches@.len() >= 1,
                self.batches@.len() <= old(self).batches@.len() + 1,
                total(self.batches@) == goal,
                tiered(old(self).batches@) ==> tiered(self.batches@.drop_last()),
                forall|i: int|
                    0 <= i < self.batches@.len() - 1 ==> self.batches@[i] == old(self).batches@[i],
            decreases self.batches@.len(),
        {
            let ghost held = self.batches@;
            let last = self.batches.pop().unwrap();
            let before = self.batches.pop().unwrap();
            let ghost rest = self.batches@;
            let merged = before.plus(last);
            self.batches.push(merged);
            proof {
                let n = held.len() as int;
                assert(held.drop_last().drop_last() =~= rest);
                assert(held.drop_last().last() == before);
                assert(self.batches@.drop_last() =~= rest);
                B::lemma_add_model_associative(total(rest), before.model(), last.model());
                assert(total(held.drop_last()) == B::add_model(total(rest), before.model()));
                if tiered(old(self).batches@) {
                    assert forall|i: int|
                        0 <= i < rest.len() - 1 implies 2 * (#[trigger] rest[i + 1]).entries_deep()
                        <= rest[i].entries_deep() by {
                        assert(held.drop_last()[i + 1] == rest[i + 1]);
                        assert(held.drop_last()[i] == rest[i]);
                    }
                }
            }
        }
        proof {
            if tiered(old(self).batches@) {
                let now = self.batches@;
                assert forall|i: int|
                    0 <= i < now.len() - 1 implies 2 * (#[trigger] now[i + 1]).entries_deep()
                    <= now[i].entries_deep() by {
                    if i + 1 < now.len() - 1 {
                        assert(now.drop_last()[i + 1] == now[i + 1]);
                        assert(now.drop_last()[i] == now[i]);
                    }
                }
            }
        }
    }

    /// The one batch that stands for what the trace stands for, with the
    /// trace left as it is: the view of the trace in one order of keys,
    /// whichever batch a tuple lies in.
    pub fn merged(&self) -> (batch: B)
        requires
            B::usable(),
            self.wf(),
        ensures
            batch.wf(),
            batch.model() == self.model(),
    {
        let mut sum = B::zero();
        let n = self.batches.len();
        let mut at: usize = 0;
        proof {
            assert(self.batches@.subrange(0, 0) =~= Seq::<B>::empty());
        }
        while at < n
            invariant
                B::usable(),
                self.wf(),
                n == self.batches@.len(),
                at <= n,
                sum.wf(),
                sum.model() == total(self.batches@.subrange(0, at as int)),
            decreases n - at,
        {
            proof {
                let seen = self.batches@.subrange(0, at + 1);
                assert(seen.drop_last() =~= self.batches@.subrange(0, at as int));
                assert(seen.last() == self.batches@[at as int]);
            }
            sum.add_assign_by_ref(&self.batches[at]);
            at += 1;
        }
        proof {
            assert(self.batches@.subrange(0, n as int) =~= self.batches@);
        }
        sum
    }

    /// The one batch that stands for what the trace stands for.
    pub fn consolidate(self) -> (batch: B)
        requires
            B::usable(),
            self.wf(),
        ensures
            batch.wf(),
            batch.model() == self.model(),
    {
        let mut batches = self.batches;
        let mut sum = B::zero();
        proof {
            B::lemma_add_model_zero(total(batches@));
        }
        while batches.len() > 0
            invariant
                B::usable(),
                sum.wf(),
                forall|i: int| 0 <= i < batches@.len() ==> (#[trigger] batches@[i]).wf(),
                B::add_model(total(batches@), sum.model()) == self.model(),
            decreases batches@.len(),
        {
            let ghost held = batches@;
            let ghost so_far = sum.model();
            let last = batches.pop().unwrap();
            proof {
                assert(batches@ =~= held.drop_last());
                assert(last == held.last());
                B::lemma_add_model_associative(total(batches@), last.model(), so_far);
            }
            sum = last.plus(sum);
        }
        proof {
            assert(batches@ =~= Seq::<B>::empty());
            B::lemma_add_model_commutative(B::zero_model(), sum.model());
            B::lemma_add_model_zero(sum.model());
        }
        sum
    }
}

/// The number of tuples in all batches.
pub open spec fn tuples_of<B: NumEntries>(batches: Seq<B>) -> nat
    decreases batches.len(),
{
    if batches.len() == 0 {
        0
    } else {
        tuples_of(batches.drop_last()) + batches.last().entries_deep()
    }
}

impl<B: NumEntries> Spine<B> {
    /// The number of tuples in all batches, as far as a `usize` counts.
    pub fn num_entries_deep(&self) -> (n: usize)
        ensures
            n == if tuples_of(self.batches@) <= usize::MAX {
                tuples_of(self.batches@)
            } else {
                usize::MAX as nat
            },
    {
        let mut n: usize = 0;
        let count = self.batches.len();
        let mut i: usize = 0;
        proof {
            assert(self.batches@.subrange(0, 0) =~= Seq::<B>::empty());
        }
        while i < count
            invariant
                count == self.batches@.len(),
                i <= count,
                n == if tuples_of(self.batches@.subrange(0, i as int)) <= usize::MAX {
                    tuples_of(self.batches@.subrange(0, i as int))
                } else {
                    usize::MAX as nat
                },
            decreases count - i,
        {
            let size = self.batches[i].num_entries_deep();
            proof {
                let seen = self.batches@.subrange(0, i + 1);
                assert(seen.drop_last() =~= self.batches@.subrange(0, i as int));
                assert(seen.last() == self.batches@[i as int]);
            }
            n = if n <= usize::MAX - size {
                n + size
            } else {
                usize::MAX
            };
            i += 1;
        }
        proof {
            assert(self.batches@.subrange(0, count as int) =~= self.batches@);
        }
        n
    }
}

impl<K: Ord + Clone, T: Ord + Clone + Timestamp, R: MonoidValue> Spine<OrdKeyBatch<K, T, R>> {
    /// `self` is `before` with the times of every batch taken back to
    /// `frontier`: the flag and the bounds of the batches are the same,
    /// and in every batch each key has at each time the weights that it
    /// had at the times whose meet with `frontier` is that time.
    pub open spec fn receded_from(&self, before: &Self, frontier: T) -> bool {
        &&& self.dirty == before.dirty
        &&& self.batches@.len() == before.batches@.len()
        &&& forall|i: int|
            0 <= i < before.batches@.len() ==> {
                &&& (#[trigger] self.batches@[i]).lower == before.batches@[i].lower
                &&& self.batches@[i].upper == before.batches@[i].upper
                &&& forall|k: K, t: T| #[trigger]
                    self.batches@[i].weight(k, t) == before.batches@[i].receded_weight(
                        frontier,
                        k,
                        t,
                    )
            }
    }

    /// Takes the times of every batch back to `frontier`.
    pub fn recede_to(&mut self, frontier: &T)
        requires
            old(self).wf(),
            lawful::<K>(),
            lawful::<T>(),
        ensures
            final(self).wf(),
            final(self).receded_from(old(self), *frontier),
    {
        let n = self.batches.len();
        let mut at: usize = 0;
        while at < n
            invariant
                lawful::<K>(),
                lawful::<T>(),
                self.wf(),
                self.dirty == old(self).dirty,
                n == old(self).batches@.len(),
                self.batches@.len() == n,
                at <= n,
                forall|i: int| at <= i < n ==> self.batches@[i] == old(self).batches@[i],
                forall|i: int|
                    0 <= i < at ==> {
                        &&& (#[trigger] self.batches@[i]).lower == old(self).batches@[i].lower
                        &&& self.batches@[i].upper == old(self).batches@[i].upper
                        &&& forall|k: K, t: T| #[trigger]
                            self.batches@[i].weight(k, t) == old(self).batches@[i].receded_weight(
                                *frontier,
                                k,
                                t,
                            )
                    },
            decreases n - at,
        {
            let ghost held = self.batches@;
            assert(held[at as int].wf());
            self.batches[at].recede_to(frontier);
            proof {
                assert forall|i: int| 0 <= i < self.batches@.len() implies (
                #[trigger] self.batches@[i]).wf() by {
                    if i != at {
                        assert(self.batches@[i] == held[i]);
                    }
                }
                assert forall|i: int| 0 <= i < at implies self.batches@[i] == held[i] by {}
            }
            at += 1;
        }
    }
}

} // verus!
