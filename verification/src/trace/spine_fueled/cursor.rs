//! The cursor of a trace: the cursors of its batches, moved together so
//! that the keys of all batches are met in one order, whichever batch a
//! key lies in.

use vstd::prelude::*;
use crate::algebra::MonoidValue;
use crate::algebra::clone_weight;
use crate::order::duplicate;
use crate::order::faithful_clone;
use crate::order::key_le;
use crate::order::key_lt;
use crate::order::lawful;
use crate::order::less;
use crate::order::same;
use crate::order::lemma_lt_le_transitive;
use crate::order::lemma_lt_total;
use crate::order::lemma_lt_transitive;
use crate::time::Timestamp;
use crate::trace::consolidation::consolidate;
use crate::trace::layers::column_layer::ColumnLayer;
use crate::trace::layers::ordered::OrderedLayer;
use crate::trace::layers::ordered::lemma_level_absent;
use crate::trace::layers::ordered::lemma_level_at;
use crate::trace::layers::ordered::span;
use crate::trace::ord::key_batch::OrdKeyBatch;
use crate::trace::ord::key_batch::OrdKeyCursor;
use crate::trace::spine_fueled::Spine;
use crate::trace::spine_fueled::total;
use crate::zset::consolidated;
use crate::zset::weight_of;
use crate::zset::lemma_weight_concat;

verus! {

/// A cursor over the keys of all batches of a trace, in the order of the
/// keys: one cursor for each batch.
pub struct SpineCursor<'s, K, T, R> {
    pub cursors: Vec<OrdKeyCursor<'s, K, T, R>>,
}

impl<'s, K: Ord + Clone, T: Ord + Clone + Timestamp, R: MonoidValue> SpineCursor<'s, K, T, R> {
    /// The layer of the batch `i`.
    pub open spec fn layer(&self, i: int) -> OrderedLayer<K, ColumnLayer<T, R>> {
        *self.cursors@[i].cursor.storage
    }

    /// Where the cursor of the batch `i` stands among the keys of the
    /// batch.
    pub open spec fn position(&self, i: int) -> int {
        self.cursors@[i].cursor.pos as int
    }

    /// The cursor of the batch `i` stands on a key.
    pub open spec fn on_key(&self, i: int) -> bool {
        self.position(i) < self.layer(i).keys@.len()
    }

    /// The key under the cursor of the batch `i`.
    pub open spec fn key_at(&self, i: int) -> K {
        self.layer(i).keys@[self.position(i)]
    }

    /// The key at the place `p` of the batch `i`.
    pub open spec fn key_of(&self, i: int, p: int) -> K {
        self.layer(i).keys@[p]
    }

    /// Each cursor is a cursor over all keys of its batch.
    pub open spec fn whole(&self) -> bool {
        forall|i: int|
            0 <= i < self.cursors@.len() ==> {
                &&& (#[trigger] self.cursors@[i]).wf()
                &&& self.cursors@[i].cursor.bounds.0 == 0
                &&& self.cursors@[i].cursor.bounds.1 == self.cursors@[i].cursor.storage.keys@.len()
            }
    }

    /// The cursors move together: every key that one of them has left
    /// behind is before every key that one of them stands on.
    pub open spec fn aligned(&self) -> bool {
        forall|i: int, p: int, j: int|
            0 <= i < self.cursors@.len() && 0 <= p < self.position(i) && 0 <= j < self.cursors@.len()
                && self.on_key(j) ==> key_lt(#[trigger] self.key_of(i, p), #[trigger] self.key_at(j))
    }

    /// The cursors are cursors over all keys of their batches and move
    /// together.
    pub open spec fn wf(&self) -> bool {
        self.whole() && self.aligned()
    }

    /// The cursors are those of `batches`, one for each.
    pub open spec fn over(&self, batches: Seq<OrdKeyBatch<K, T, R>>) -> bool {
        &&& self.cursors@.len() == batches.len()
        &&& forall|i: int| 0 <= i < batches.len() ==> #[trigger] self.layer(i) == batches[i].layer
    }

    /// Some cursor stands on a key: the keys are not used up.
    pub open spec fn any_key(&self) -> bool {
        exists|i: int| 0 <= i < self.cursors@.len() && #[trigger] self.on_key(i)
    }

    /// `key` is the least of the keys that the cursors stand on.
    pub open spec fn least(&self, key: K) -> bool {
        &&& exists|i: int| 0 <= i < self.cursors@.len() && #[trigger] self.on_key(i) && self.key_at(i) == key
        &&& forall|i: int|
            0 <= i < self.cursors@.len() && #[trigger] self.on_key(i) ==> key_le(key, self.key_at(i))
    }

    /// The `(time, weight)` pairs that the first `upto` batches have for
    /// `key`, where their cursors stand on it, batch by batch.
    pub open spec fn gathered(&self, upto: int, key: K) -> Seq<(T, R)>
        decreases upto,
    {
        if upto <= 0 {
            Seq::empty()
        } else if self.on_key(upto - 1) && self.key_at(upto - 1) == key {
            self.gathered(upto - 1, key) + span(
                self.layer(upto - 1).offs@,
                self.layer(upto - 1).vals.entries(),
                self.position(upto - 1),
            )
        } else {
            self.gathered(upto - 1, key)
        }
    }

    /// The weight that `key` has at `time` in the first `upto` batches
    /// together.
    pub open spec fn summed(&self, upto: int, key: K, time: T) -> R
        decreases upto,
    {
        if upto <= 0 {
            R::zero_spec()
        } else {
            self.summed(upto - 1, key, time).add_spec(self.layer(upto - 1).weight(key, time))
        }
    }

    /// The cursors are over the batches that the cursors of `other` are
    /// over.
    pub open spec fn same_batches(&self, other: &Self) -> bool {
        &&& self.cursors@.len() == other.cursors@.len()
        &&& forall|i: int| 0 <= i < self.cursors@.len() ==> #[trigger] self.layer(i) == other.layer(i)
    }

    /// The least key is one key only.
    pub proof fn lemma_least_unique(&self, a: K, b: K)
        requires
            lawful::<K>(),
            self.least(a),
            self.least(b),
        ensures
            a == b,
    {
        let i = choose|i: int| 0 <= i < self.cursors@.len() && #[trigger] self.on_key(i) && self.key_at(i) == a;
        let j = choose|j: int| 0 <= j < self.cursors@.len() && #[trigger] self.on_key(j) && self.key_at(j) == b;
        assert(key_le(a, self.key_at(j)));
        assert(key_le(b, self.key_at(i)));
        lemma_lt_total(a, b);
    }

    /// A batch whose cursor does not stand on the least key does not
    /// have that key; one whose cursor stands on it has the key there.
    pub proof fn lemma_least_key_found(&self, key: K, i: int, time: T)
        requires
            lawful::<K>(),
            self.wf(),
            self.least(key),
            0 <= i < self.cursors@.len(),
        ensures
            self.on_key(i) && self.key_at(i) == key ==> self.layer(i).weight(key, time) == weight_of(
                span(self.layer(i).offs@, self.layer(i).vals.entries(), self.position(i)),
                time,
            ),
            !(self.on_key(i) && self.key_at(i) == key) ==> self.layer(i).weight(key, time)
                == R::zero_spec(),
    {
        let layer = self.layer(i);
        let at = self.position(i);
        assert(self.cursors@[i].wf());
        if self.on_key(i) && self.key_at(i) == key {
            lemma_level_at(layer.level(time), layer.keys@, at);
        } else {
            let j = choose|j: int|
                0 <= j < self.cursors@.len() && #[trigger] self.on_key(j) && self.key_at(j) == key;
            assert forall|p: int| 0 <= p < layer.keys@.len() implies (#[trigger] layer.keys@[p])
                != key by {
                if p < at {
                    assert(key_lt(self.key_of(i, p), self.key_at(j)));
                    lemma_lt_total(layer.keys@[p], key);
                } else {
                    assert(self.on_key(i));
                    assert(key_le(key, self.key_at(i)));
                    lemma_lt_total(key, self.key_at(i));
                    if p > at {
                        assert(key_lt(layer.keys@[at], layer.keys@[p]));
                        lemma_lt_transitive(key, layer.keys@[at], layer.keys@[p]);
                        lemma_lt_total(key, layer.keys@[p]);
                    }
                }
            }
            lemma_level_absent(layer.level(time), layer.keys@, key);
        }
    }

    /// What is gathered for the least key weighs what the key weighs in
    /// the batches together.
    pub proof fn lemma_gathered_weight(&self, upto: int, key: K, time: T)
        requires
            lawful::<K>(),
            self.wf(),
            self.least(key),
            0 <= upto <= self.cursors@.len(),
        ensures
            weight_of(self.gathered(upto, key), time) == self.summed(upto, key, time),
        decreases upto,
    {
        if upto > 0 {
            self.lemma_gathered_weight(upto - 1, key, time);
            self.lemma_least_key_found(key, upto - 1, time);
            let before = self.gathered(upto - 1, key);
            if self.on_key(upto - 1) && self.key_at(upto - 1) == key {
                let run = span(
                    self.layer(upto - 1).offs@,
                    self.layer(upto - 1).vals.entries(),
                    self.position(upto - 1),
                );
                lemma_weight_concat(before, run, time);
            } else {
                R::lemma_add_zero(weight_of(before, time));
            }
        }
    }

    /// What the batches weigh together is what the trace of them stands
    /// for.
    pub proof fn lemma_summed_total(
        &self,
        batches: Seq<OrdKeyBatch<K, T, R>>,
        upto: int,
        key: K,
        time: T,
    )
        requires
            self.over(batches),
            0 <= upto <= batches.len(),
        ensures
            total(batches.subrange(0, upto))(key, time) == self.summed(upto, key, time),
        decreases upto,
    {
        if upto > 0 {
            self.lemma_summed_total(batches, upto - 1, key, time);
            let seen = batches.subrange(0, upto);
            assert(seen.drop_last() =~= batches.subrange(0, upto - 1));
            assert(seen.last() == batches[upto - 1]);
            assert(self.layer(upto - 1) == batches[upto - 1].layer);
        }
    }

    /// Whether a key is left: whether some cursor stands on a key.
    pub fn key_valid(&self) -> (valid: bool)
        ensures
            valid == self.any_key(),
    {
        let n = self.cursors.len();
        let mut i: usize = 0;
        while i < n
            invariant
                n == self.cursors@.len(),
                i <= n,
                forall|j: int| 0 <= j < i ==> !#[trigger] self.on_key(j),
            decreases n - i,
        {
            if self.cursors[i].cursor.pos < self.cursors[i].cursor.storage.keys.len() {
                assert(self.on_key(i as int));
                return true;
            }
            i += 1;
        }
        false
    }

    /// The key that the cursor stands on: the least of the keys under the
    /// cursors of the batches.
    pub fn key(&self) -> (key: &'s K)
        requires
            self.wf(),
            lawful::<K>(),
            self.any_key(),
        ensures
            self.least(*key),
    {
        let n = self.cursors.len();
        let mut best: Option<&'s K> = None;
        let mut i: usize = 0;
        while i < n
            invariant
                n == self.cursors@.len(),
                i <= n,
                self.wf(),
                lawful::<K>(),
                best.is_none() ==> forall|j: int| 0 <= j < i ==> !#[trigger] self.on_key(j),
                best matches Some(found) ==> {
                    &&& exists|j: int| 0 <= j < i && #[trigger] self.on_key(j) && self.key_at(j) == *found
                    &&& forall|j: int|
                        0 <= j < i && #[trigger] self.on_key(j) ==> key_le(*found, self.key_at(j))
                },
            decreases n - i,
        {
            assert(self.cursors@[i as int].wf());
            if self.cursors[i].key_valid() {
                let key = self.cursors[i].key();
                assert(self.on_key(i as int) && self.key_at(i as int) == *key);
                match best {
                    None => {
                        best = Some(key);
                    },
                    Some(found) => {
                        proof {
                            lemma_lt_total(*key, *found);
                        }
                        if less(key, found) {
                            proof {
                                assert forall|j: int|
                                    0 <= j < i && #[trigger] self.on_key(j) implies key_le(
                                    *key,
                                    self.key_at(j),
                                ) by {
                                    assert(key_le(*found, self.key_at(j)));
                                    lemma_lt_le_transitive(*key, *found, self.key_at(j));
                                }
                            }
                            best = Some(key);
                        }
                    },
                }
            }
            i += 1;
        }
        proof {
            let on = choose|j: int| 0 <= j < self.cursors@.len() && #[trigger] self.on_key(j);
            assert(self.on_key(on));
        }
        best.unwrap()
    }

    /// Moves on to the next key: every cursor that stands on the least
    /// key moves to the next key of its batch. The key then under the
    /// cursor, if there is one, is behind the key that was left.
    pub fn step_key(&mut self)
        requires
            old(self).wf(),
            lawful::<K>(),
            old(self).any_key(),
        ensures
            final(self).wf(),
            final(self).same_batches(old(self)),
            forall|key: K, i: int|
                #[trigger] old(self).least(key) && 0 <= i < old(self).cursors@.len() ==> #[trigger] final(self).position(i) == old(self).position(i) + if old(self).on_key(i) && old(self).key_at(i)
                    == key {
                    1int
                } else {
                    0int
                },
            forall|key: K, i: int|
                #[trigger] old(self).least(key) && 0 <= i < final(self).cursors@.len() && #[trigger] final(self).on_key(i) ==> key_lt(key, final(self).key_at(i)),
    {
        let least = self.key();
        let n = self.cursors.len();
        let mut i: usize = 0;
        while i < n
            invariant
                n == old(self).cursors@.len(),
                self.cursors@.len() == n,
                i <= n,
                lawful::<K>(),
                old(self).wf(),
                old(self).least(*least),
                self.whole(),
                self.same_batches(old(self)),
                forall|j: int|
                    0 <= j < i ==> #[trigger] self.position(j) == old(self).position(j) + if old(self).on_key(j) && old(self).key_at(j) == *least {
                        1int
                    } else {
                        0int
                    },
                forall|j: int| i <= j < n ==> self.cursors@[j] == old(self).cursors@[j],
            decreases n - i,
        {
            let ghost held = self.cursors@;
            let ghost earlier = *self;
            assert(held[i as int].wf());
            assert(held[i as int] == old(self).cursors@[i as int]);
            if self.cursors[i].key_valid() && same(self.cursors[i].key(), least) {
                self.cursors[i].step_key();
            }
            proof {
                assert forall|j: int| 0 <= j < n && j != i implies self.cursors@[j] == held[j] by {}
                assert forall|j: int| 0 <= j < n implies {
                    &&& (#[trigger] self.cursors@[j]).wf()
                    &&& self.cursors@[j].cursor.bounds.0 == 0
                    &&& self.cursors@[j].cursor.bounds.1 == self.cursors@[j].cursor.storage.keys@.len()
                } by {
                    if j != i {
                        assert(self.cursors@[j] == held[j]);
                        assert(held[j].wf());
                    }
                }
                assert forall|j: int| 0 <= j < n implies #[trigger] self.layer(j) == old(self).layer(
                    j,
                ) by {
                    if j != i {
                        assert(self.cursors@[j] == held[j]);
                    }
                    assert(earlier.layer(j) == old(self).layer(j));
                }
                assert forall|j: int| 0 <= j < i + 1 implies #[trigger] self.position(j) == old(self).position(j) + if old(self).on_key(j) && old(self).key_at(j) == *least {
                    1int
                } else {
                    0int
                } by {
                    if j < i {
                        assert(self.cursors@[j] == held[j]);
                        assert(earlier.position(j) == old(self).position(j) + if old(self).on_key(j)
                            && old(self).key_at(j) == *least {
                            1int
                        } else {
                            0int
                        });
                    }
                }
                assert forall|j: int| i + 1 <= j < n implies self.cursors@[j] == old(self).cursors@[j] by {
                    assert(self.cursors@[j] == held[j]);
                }
            }
            i += 1;
        }
        proof {
            self.lemma_stepped(old(self), *least);
            assert forall|key: K, j: int|
                #[trigger] old(self).least(key) && 0 <= j < old(self).cursors@.len() implies #[trigger] self.position(
                j,
            ) == old(self).position(j) + if old(self).on_key(j) && old(self).key_at(j) == key {
                1int
            } else {
                0int
            } by {
                old(self).lemma_least_unique(key, *least);
            }
            assert forall|key: K, j: int|
                #[trigger] old(self).least(key) && 0 <= j < self.cursors@.len() && #[trigger] self.on_key(
                    j,
                ) implies key_lt(key, self.key_at(j)) by {
                old(self).lemma_least_unique(key, *least);
            }
        }
    }

    /// Cursors that have left the least key behind, and nothing else,
    /// still move together, and stand on keys behind it.
    proof fn lemma_stepped(&self, before: &Self, least: K)
        requires
            lawful::<K>(),
            before.wf(),
            before.least(least),
            self.whole(),
            self.same_batches(before),
            forall|j: int|
                0 <= j < self.cursors@.len() ==> #[trigger] self.position(j) == before.position(j)
                    + if before.on_key(j) && before.key_at(j) == least {
                    1int
                } else {
                    0int
                },
        ensures
            self.aligned(),
            forall|j: int|
                0 <= j < self.cursors@.len() && #[trigger] self.on_key(j) ==> key_lt(
                    least,
                    self.key_at(j),
                ),
    {
        let n = self.cursors@.len() as int;
        assert forall|j: int| 0 <= j < n && #[trigger] self.on_key(j) implies key_lt(
            least,
            self.key_at(j),
        ) by {
            assert(self.layer(j) == before.layer(j));
            assert(self.position(j) == before.position(j) + if before.on_key(j) && before.key_at(j)
                == least {
                1int
            } else {
                0int
            });
            assert(before.cursors@[j].wf());
            let keys = before.layer(j).keys@;
            if before.on_key(j) && before.key_at(j) == least {
                assert(key_lt(keys[before.position(j)], keys[before.position(j) + 1]));
            } else {
                assert(before.on_key(j));
                assert(key_le(least, before.key_at(j)));
            }
        }
        assert forall|i: int, p: int, j: int|
            0 <= i < n && 0 <= p < self.position(i) && 0 <= j < n && self.on_key(j) implies key_lt(
            #[trigger] self.key_of(i, p),
            #[trigger] self.key_at(j),
        ) by {
            assert(self.layer(i) == before.layer(i));
            assert(self.position(i) == before.position(i) + if before.on_key(i) && before.key_at(i)
                == least {
                1int
            } else {
                0int
            });
            assert(key_lt(least, self.key_at(j)));
            if p < before.position(i) {
                let on = choose|on: int|
                    0 <= on < before.cursors@.len() && #[trigger] before.on_key(on)
                        && before.key_at(on) == least;
                assert(key_lt(before.key_of(i, p), before.key_at(on)));
                lemma_lt_transitive(self.key_of(i, p), least, self.key_at(j));
            } else {
                assert(self.key_of(i, p) == least);
            }
        }
    }

    /// Moves forward to the first key that is not before `key`: every
    /// cursor moves to the first such key of its batch.
    pub fn seek_key(&mut self, key: &K)
        requires
            old(self).wf(),
            lawful::<K>(),
        ensures
            final(self).wf(),
            final(self).same_batches(old(self)),
            forall|i: int|
                0 <= i < final(self).cursors@.len() ==> old(self).position(i) <= #[trigger] final(self).position(i),
            forall|i: int, p: int|
                0 <= i < final(self).cursors@.len() && old(self).position(i) <= p < final(self).position(i) ==> key_lt(#[trigger] final(self).key_of(i, p), *key),
            forall|i: int|
                0 <= i < final(self).cursors@.len() && #[trigger] final(self).on_key(i) ==> key_le(
                    *key,
                    final(self).key_at(i),
                ),
    {
        let n = self.cursors.len();
        let mut i: usize = 0;
        while i < n
            invariant
                n == old(self).cursors@.len(),
                self.cursors@.len() == n,
                i <= n,
                lawful::<K>(),
                old(self).wf(),
                self.whole(),
                self.same_batches(old(self)),
                forall|j: int| 0 <= j < i ==> old(self).position(j) <= #[trigger] self.position(j),
                forall|j: int, p: int|
                    0 <= j < i && old(self).position(j) <= p < self.position(j) ==> key_lt(
                        #[trigger] self.key_of(j, p),
                        *key,
                    ),
                forall|j: int|
                    0 <= j < i && #[trigger] self.on_key(j) ==> key_le(*key, self.key_at(j)),
                forall|j: int| i <= j < n ==> self.cursors@[j] == old(self).cursors@[j],
            decreases n - i,
        {
            let ghost held = self.cursors@;
            let ghost earlier = *self;
            assert(held[i as int].wf());
            self.cursors[i].seek_key(key);
            proof {
                assert forall|j: int| 0 <= j < n && j != i implies self.cursors@[j] == held[j] by {}
                assert forall|j: int| 0 <= j < n implies {
                    &&& (#[trigger] self.cursors@[j]).wf()
                    &&& self.cursors@[j].cursor.bounds.0 == 0
                    &&& self.cursors@[j].cursor.bounds.1 == self.cursors@[j].cursor.storage.keys@.len()
                } by {
                    if j != i {
                        assert(self.cursors@[j] == held[j]);
                        assert(held[j].wf());
                    }
                }
                assert forall|j: int| 0 <= j < n implies #[trigger] self.layer(j) == old(self).layer(
                    j,
                ) by {
                    if j != i {
                        assert(self.cursors@[j] == held[j]);
                    }
                    assert(earlier.layer(j) == old(self).layer(j));
                }
                assert forall|j: int| 0 <= j < i + 1 implies old(self).position(j)
                    <= #[trigger] self.position(j) by {
                    if j < i {
                        assert(self.cursors@[j] == held[j]);
                        assert(old(self).position(j) <= earlier.position(j));
                    }
                }
                assert forall|j: int, p: int|
                    0 <= j < i + 1 && old(self).position(j) <= p < self.position(j) implies key_lt(
                    #[trigger] self.key_of(j, p),
                    *key,
                ) by {
                    if j < i {
                        assert(self.cursors@[j] == held[j]);
                        assert(key_lt(earlier.key_of(j, p), *key));
                    }
                }
                assert forall|j: int| 0 <= j < i + 1 && #[trigger] self.on_key(j) implies key_le(
                    *key,
                    self.key_at(j),
                ) by {
                    if j < i {
                        assert(self.cursors@[j] == held[j]);
                        assert(earlier.on_key(j));
                        assert(key_le(*key, earlier.key_at(j)));
                    } else {
                        lemma_lt_total(self.key_at(j), *key);
                    }
                }
            }
            i += 1;
        }
        proof {
            assert forall|a: int, p: int, b: int|
                0 <= a < n && 0 <= p < self.position(a) && 0 <= b < n && self.on_key(b) implies key_lt(
                #[trigger] self.key_of(a, p),
                #[trigger] self.key_at(b),
            ) by {
                assert(self.layer(a) == old(self).layer(a));
                assert(self.layer(b) == old(self).layer(b));
                assert(old(self).position(b) <= self.position(b));
                assert(old(self).position(a) <= self.position(a));
                assert(key_le(*key, self.key_at(b)));
                if p < old(self).position(a) {
                    assert(old(self).cursors@[b].wf());
                    assert(old(self).on_key(b));
                    assert(key_lt(old(self).key_of(a, p), old(self).key_at(b)));
                    if old(self).position(b) < self.position(b) {
                        let keys = old(self).layer(b).keys@;
                        assert(key_lt(keys[old(self).position(b)], keys[self.position(b)]));
                        lemma_lt_transitive(self.key_of(a, p), old(self).key_at(b), self.key_at(b));
                    }
                } else {
                    assert(key_lt(self.key_of(a, p), *key));
                    lemma_lt_le_transitive(self.key_of(a, p), *key, self.key_at(b));
                }
            }
        }
    }

    /// Moves back to the first key of the trace: every cursor moves back
    /// to the first key of its batch.
    pub fn rewind_keys(&mut self)
        requires
            old(self).whole(),
        ensures
            final(self).wf(),
            final(self).same_batches(old(self)),
            forall|i: int| 0 <= i < final(self).cursors@.len() ==> #[trigger] final(self).position(i) == 0,
    {
        let n = self.cursors.len();
        let mut i: usize = 0;
        while i < n
            invariant
                n == old(self).cursors@.len(),
                self.cursors@.len() == n,
                i <= n,
                old(self).whole(),
                self.whole(),
                self.same_batches(old(self)),
                forall|j: int| 0 <= j < i ==> #[trigger] self.position(j) == 0,
                forall|j: int| i <= j < n ==> self.cursors@[j] == old(self).cursors@[j],
            decreases n - i,
        {
            let ghost held = self.cursors@;
            let ghost earlier = *self;
            assert(held[i as int].wf());
            self.cursors[i].rewind_keys();
            proof {
                assert forall|j: int| 0 <= j < n && j != i implies self.cursors@[j] == held[j] by {}
                assert forall|j: int| 0 <= j < n implies {
                    &&& (#[trigger] self.cursors@[j]).wf()
                    &&& self.cursors@[j].cursor.bounds.0 == 0
                    &&& self.cursors@[j].cursor.bounds.1 == self.cursors@[j].cursor.storage.keys@.len()
                } by {
                    if j != i {
                        assert(self.cursors@[j] == held[j]);
                        assert(held[j].wf());
                    }
                }
                assert forall|j: int| 0 <= j < n implies #[trigger] self.layer(j) == old(self).layer(
                    j,
                ) by {
                    if j != i {
                        assert(self.cursors@[j] == held[j]);
                    }
                    assert(earlier.layer(j) == old(self).layer(j));
                }
                assert forall|j: int| 0 <= j < i + 1 implies #[trigger] self.position(j) == 0 by {
                    if j < i {
                        assert(self.cursors@[j] == held[j]);
                        assert(earlier.position(j) == 0);
                    }
                }
            }
            i += 1;
        }
    }

    /// The times of the key under the cursor, each with the weight that
    /// the key has at it in all batches together, in the order of the
    /// times; a time at which the weights cancel is left out.
    pub fn times(&self) -> (times: Vec<(T, R)>)
        requires
            self.wf(),
            lawful::<K>(),
            lawful::<T>(),
            faithful_clone::<T>(),
            self.any_key(),
        ensures
            consolidated(times@),
            forall|key: K, time: T|
                #[trigger] self.least(key) ==> #[trigger] weight_of(times@, time) == self.summed(
                    self.cursors@.len() as int,
                    key,
                    time,
                ),
    {
        let least = self.key();
        let mut times: Vec<(T, R)> = Vec::new();
        let n = self.cursors.len();
        let mut i: usize = 0;
        while i < n
            invariant
                n == self.cursors@.len(),
                i <= n,
                self.wf(),
                lawful::<K>(),
                faithful_clone::<T>(),
                self.least(*least),
                times@ == self.gathered(i as int, *least),
            decreases n - i,
        {
            assert(self.cursors@[i as int].wf());
            if self.cursors[i].key_valid() && same(self.cursors[i].key(), least) {
                let ghost before = times@;
                let ghost layer = self.layer(i as int);
                let ghost run = span(layer.offs@, layer.vals.entries(), self.position(i as int));
                let mut values = self.cursors[i].cursor.values();
                let ghost first = values.pos as int;
                proof {
                    assert(layer.offs@[self.position(i as int)] < layer.offs@[self.position(i as int) + 1]);
                    assert(run.subrange(0, 0) =~= Seq::<(T, R)>::empty());
                    assert(before + Seq::<(T, R)>::empty() =~= before);
                }
                while values.valid()
                    invariant
                        values.wf(),
                        faithful_clone::<T>(),
                        values.storage == &layer.vals,
                        values.bounds.0 == first,
                        first <= values.pos <= values.bounds.1,
                        run == layer.vals.entries().subrange(first, values.bounds.1 as int),
                        times@ == before + run.subrange(0, values.pos - first),
                    decreases values.bounds.1 - values.pos,
                {
                    let ghost at = values.pos - first;
                    let time = duplicate(values.current_key());
                    let weight = clone_weight(values.current_diff());
                    times.push((time, weight));
                    values.step();
                    proof {
                        assert(run[at] == layer.vals.entries()[first + at]);
                        assert(run.subrange(0, at + 1) =~= run.subrange(0, at).push(run[at]));
                        assert(times@ =~= before + run.subrange(0, at + 1));
                    }
                }
                proof {
                    assert(run.subrange(0, run.len() as int) =~= run);
                }
            }
            i += 1;
        }
        let ghost all = times@;
        consolidate(&mut times);
        proof {
            assert forall|key: K, time: T| #[trigger] self.least(key) implies #[trigger] weight_of(
                times@,
                time,
            ) == self.summed(n as int, key, time) by {
                self.lemma_least_unique(key, *least);
                self.lemma_gathered_weight(n as int, key, time);
                assert(weight_of(times@, time) == weight_of(all, time));
            }
        }
        times
    }
}

impl<K: Ord + Clone, T: Ord + Clone + Timestamp, R: MonoidValue> Spine<OrdKeyBatch<K, T, R>> {
    /// A cursor over the keys of the trace, placed on its first key: the
    /// least of the first keys of the batches.
    pub fn cursor(&self) -> (cursor: SpineCursor<'_, K, T, R>)
        requires
            self.wf(),
        ensures
            cursor.wf(),
            cursor.over(self.batches@),
            forall|i: int| 0 <= i < cursor.cursors@.len() ==> #[trigger] cursor.position(i) == 0,
    {
        let n = self.batches.len();
        let mut cursors: Vec<OrdKeyCursor<'_, K, T, R>> = Vec::with_capacity(n);
        let mut i: usize = 0;
        while i < n
            invariant
                n == self.batches@.len(),
                i <= n,
                self.wf(),
                cursors@.len() == i,
                forall|j: int|
                    0 <= j < i ==> {
                        &&& (#[trigger] cursors@[j]).wf()
                        &&& cursors@[j].cursor.storage == &self.batches@[j].layer
                        &&& cursors@[j].cursor.pos == 0
                        &&& cursors@[j].cursor.bounds.0 == 0
                        &&& cursors@[j].cursor.bounds.1 == self.batches@[j].layer.keys@.len()
                    },
            decreases n - i,
        {
            assert(self.batches@[i as int].wf());
            cursors.push(self.batches[i].cursor());
            i += 1;
        }
        let cursor = SpineCursor { cursors };
        proof {
            assert forall|j: int| 0 <= j < n implies #[trigger] cursor.layer(j)
                == self.batches@[j].layer by {
                assert(cursor.cursors@[j].wf());
            }
            assert forall|j: int| 0 <= j < n implies #[trigger] cursor.position(j) == 0 by {
                assert(cursor.cursors@[j].wf());
            }
        }
        cursor
    }
}

} // verus!
