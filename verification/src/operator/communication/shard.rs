//! Operators to shard batches across multiple worker threads based on keys
//! and to gather sharded batches in one worker.

use vstd::prelude::*;
use crate::circuit::CacheKey;
use crate::circuit::Circuit;
use crate::circuit::NodeKind;
use crate::circuit::OwnershipPreference;
use crate::circuit::Stream;
use crate::algebra::MonoidValue;
use crate::order::duplicate;
use crate::order::faithful_clone;
use crate::order::key_le;
use crate::order::key_lt;
use crate::order::lawful;
use crate::trace::layers::column_layer::ColumnLayer;
use crate::trace::layers::ordered::OrderedLayer;
use crate::trace::layers::ordered::span;
use crate::trace::ord::indexed_zset_batch::OrdIndexedZSet;
use crate::trace::ord::indexed_zset_batch::OrdIndexedZSetBuilder;
use crate::zset::share;
use crate::zset::weight_of;
use crate::zset::lemma_weight_push;
use core::hash::Hash;
use core::hash::Hasher;
use std::collections::hash_map::DefaultHasher;

pub use crate::circuit::ShardingPolicy;

verus! {

/// The sharding policy of a circuit: there is one.
pub fn sharding_policy(_circuit: &Circuit) -> (policy: ShardingPolicy)
    ensures
        policy == ShardingPolicy,
{
    ShardingPolicy
}

impl<D> Stream<D> {
    /// Shard batches across multiple worker threads based on keys.
    ///
    /// # Theory
    ///
    /// We parallelize processing across `N` worker threads by creating a
    /// replica of the same circuit per thread and sharding data across
    /// replicas.  To ensure correctness (i.e., that the sum of outputs
    /// produced by individual workers is equal to the output produced
    /// by processing the entire dataset by one worker), sharding must satisfy
    /// certain requirements determined by each operator.  In particular,
    /// for `distinct`, and `aggregate` all tuples that share the same key
    /// must be processed by the same worker.  For `join`, tuples from both
    /// input streams with the same key must be processed by the same worker.
    ///
    /// The `shard` operator shards input batches based on the hash of the key,
    /// making sure that tuples with the same key always end up at the same
    /// worker.
    ///
    /// # What is built
    ///
    /// With one worker the stream is its own sharded version. A stream
    /// whose sharded version is known is not sharded again. Otherwise an
    /// exchange and a consolidation are added, and the result is noted as
    /// the sharded version of the stream and of itself.
    pub fn shard(&self, circuit: &mut Circuit) -> (sharded: Stream<D>)
        requires
            old(circuit).wf(),
            self.node < old(circuit).nodes@.len(),
        ensures
            final(circuit).wf(),
            final(circuit).same_setting(old(circuit)),
            sharded.node < final(circuit).nodes@.len(),
            old(circuit).workers == 1 ==> sharded.node == self.node && *final(circuit) == *old(circuit),
            old(circuit).workers > 1 && old(circuit).cached(
                CacheKey::ShardId(self.node, ShardingPolicy),
            ).is_some() ==> sharded.node == old(circuit).sharded_version(self.node) && *final(circuit) == *old(circuit),
            old(circuit).workers > 1 && old(circuit).cached(
                CacheKey::ShardId(self.node, ShardingPolicy),
            ).is_none() ==> {
                &&& final(circuit).extends(old(circuit), 2)
                &&& final(circuit).node_is(
                    (sharded.node - 1) as usize,
                    NodeKind::ShardExchange,
                    seq![(self.node, OwnershipPreference::PreferOwned)],
                )
                &&& final(circuit).node_is(
                    sharded.node,
                    NodeKind::Consolidate,
                    seq![((sharded.node - 1) as usize, OwnershipPreference::PreferOwned)],
                )
                &&& sharded.node == old(circuit).nodes@.len() + 1
                &&& final(circuit).cached(CacheKey::ShardId(self.node, ShardingPolicy)) == Some(
                    sharded.node,
                )
                &&& final(circuit).cached(CacheKey::ShardId(sharded.node, ShardingPolicy)) == Some(
                    sharded.node,
                )
                &&& forall|other: CacheKey|
                    other != CacheKey::ShardId(self.node, ShardingPolicy) && other
                        != CacheKey::ShardId(sharded.node, ShardingPolicy) ==> #[trigger] final(circuit).cached(other) == old(circuit).cached(other)
            },
    {
        // `shard_generic` returns `None` if there is only one worker thread
        // and hence sharding is a no-op.  In this case, we simply return the
        // input stream.  This allows us to use `shard` unconditionally without
        // incurring any overhead in the single-threaded case.
        match self.shard_generic(circuit) {
            Some(sharded) => sharded,
            None => self.copy(),
        }
    }

    /// Like [`Self::shard`], but returns `None` when the circuit runs with
    /// a single worker.
    pub fn shard_generic(&self, circuit: &mut Circuit) -> (sharded: Option<Stream<D>>)
        requires
            old(circuit).wf(),
            self.node < old(circuit).nodes@.len(),
        ensures
            final(circuit).wf(),
            final(circuit).same_setting(old(circuit)),
            sharded.is_none() <==> old(circuit).workers == 1,
            sharded.is_none() ==> *final(circuit) == *old(circuit),
            sharded matches Some(stream) ==> {
                &&& stream.node < final(circuit).nodes@.len()
                &&& old(circuit).cached(CacheKey::ShardId(self.node, ShardingPolicy)).is_some()
                    ==> stream.node == old(circuit).sharded_version(self.node) && *final(circuit)
                    == *old(circuit)
                &&& old(circuit).cached(CacheKey::ShardId(self.node, ShardingPolicy)).is_none()
                    ==> {
                    &&& final(circuit).extends(old(circuit), 2)
                    &&& final(circuit).node_is(
                        (stream.node - 1) as usize,
                        NodeKind::ShardExchange,
                        seq![(self.node, OwnershipPreference::PreferOwned)],
                    )
                    &&& final(circuit).node_is(
                        stream.node,
                        NodeKind::Consolidate,
                        seq![((stream.node - 1) as usize, OwnershipPreference::PreferOwned)],
                    )
                    &&& stream.node == old(circuit).nodes@.len() + 1
                    &&& final(circuit).cached(CacheKey::ShardId(self.node, ShardingPolicy)) == Some(
                        stream.node,
                    )
                    &&& final(circuit).cached(CacheKey::ShardId(stream.node, ShardingPolicy)) == Some(
                        stream.node,
                    )
                    &&& forall|other: CacheKey|
                        other != CacheKey::ShardId(self.node, ShardingPolicy) && other
                            != CacheKey::ShardId(stream.node, ShardingPolicy) ==> #[trigger] final(circuit).cached(other) == old(circuit).cached(other)
                }
            },
    {
        let num_workers = circuit.num_workers();
        if num_workers == 1 {
            None
        } else {
            let policy = sharding_policy(circuit);
            let key = CacheKey::ShardId(self.origin_node_id(), policy);
            match circuit.cache_get(key) {
                Some(node) => Some(Stream::at(node)),
                None => {
                    let exchange = circuit.add_unary(
                        NodeKind::ShardExchange,
                        self.node,
                        OwnershipPreference::PreferOwned,
                    );
                    // Is `consolidate` always necessary? Some (all?) consumers may be happy
                    // working with traces.
                    let output = circuit.add_unary(
                        NodeKind::Consolidate,
                        exchange,
                        OwnershipPreference::PreferOwned,
                    );
                    let ghost built = *circuit;
                    circuit.cache_insert(key, output);
                    let ghost noted = *circuit;
                    circuit.cache_insert(CacheKey::ShardId(output, policy), output);
                    proof {
                        let own = CacheKey::ShardId(output, policy);
                        assert(own != key);
                        assert(noted.cached(key) == Some(output));
                        assert(circuit.cached(key) == noted.cached(key));
                        assert(circuit.cached(own) == Some(output));
                        assert forall|other: CacheKey| other != key && other != own implies #[trigger] circuit.cached(
                            other,
                        ) == old(circuit).cached(other) by {
                            assert(circuit.cached(other) == noted.cached(other));
                            assert(noted.cached(other) == built.cached(other));
                        }
                    }
                    Some(Stream::at(output))
                },
            }
        }
    }

    /// Marks the data within the current stream as sharded, meaning that all
    /// further calls to `.shard()` will have no effect.
    ///
    /// This must only be used on streams of values that are properly sharded
    /// across workers, otherwise this will cause the dataflow to yield
    /// incorrect results
    pub fn mark_sharded(&self, circuit: &mut Circuit) -> (marked: Self)
        requires
            old(circuit).wf(),
            self.node < old(circuit).nodes@.len(),
        ensures
            final(circuit).wf(),
            final(circuit).same_setting(old(circuit)),
            final(circuit).nodes@ == old(circuit).nodes@,
            marked.node == self.node,
            final(circuit).caches(
                old(circuit),
                CacheKey::ShardId(self.node, ShardingPolicy),
                self.node,
            ),
    {
        let policy = sharding_policy(circuit);
        circuit.cache_insert(CacheKey::ShardId(self.origin_node_id(), policy), self.node);
        self.copy()
    }

    /// Returns `true` if a sharded version of the current stream exists
    pub fn has_sharded_version(&self, circuit: &Circuit) -> (has: bool)
        ensures
            has == circuit.cached(CacheKey::ShardId(self.node, ShardingPolicy)).is_some(),
    {
        circuit.cache_contains(CacheKey::ShardId(self.origin_node_id(), sharding_policy(circuit)))
    }

    /// Returns the sharded version of the stream if it exists
    /// (which may be the stream itself or the result of applying
    /// the `shard` operator to it).  Otherwise, returns `self`.
    pub fn try_sharded_version(&self, circuit: &Circuit) -> (version: Self)
        ensures
            version.node == circuit.sharded_version(self.node),
            circuit.wf() && self.node < circuit.nodes@.len() ==> version.node < circuit.nodes@.len(),
    {
        match circuit.cache_get(
            CacheKey::ShardId(self.origin_node_id(), sharding_policy(circuit)),
        ) {
            Some(node) => Stream::at(node),
            None => self.copy(),
        }
    }

    /// Marks `self` as sharded if `input` has a sharded version of itself
    pub fn mark_sharded_if<U>(&self, circuit: &mut Circuit, input: &Stream<U>)
        requires
            old(circuit).wf(),
            self.node < old(circuit).nodes@.len(),
        ensures
            final(circuit).wf(),
            final(circuit).same_setting(old(circuit)),
            final(circuit).nodes@ == old(circuit).nodes@,
            old(circuit).cached(CacheKey::ShardId(input.node, ShardingPolicy)).is_some()
                ==> final(circuit).caches(
                old(circuit),
                CacheKey::ShardId(self.node, ShardingPolicy),
                self.node,
            ),
            old(circuit).cached(CacheKey::ShardId(input.node, ShardingPolicy)).is_none()
                ==> *final(circuit) == *old(circuit),
    {
        if input.has_sharded_version(circuit) {
            self.mark_sharded(circuit);
        }
    }
}

/// Feeds a key to a hasher with `Hash::hash`.
///
/// Trusted, and nothing is claimed of the state that the hasher is left
/// in: how a key is fed is left to the key's type.
#[verifier::external_body]
fn hash_into<K: Hash>(key: &K, hasher: &mut DefaultHasher) {
    key.hash(hasher);
}

/// The hash of a key: what a `DefaultHasher` makes of it.
pub fn default_hash<K: Hash>(key: &K) -> (hash: u64) {
    let mut hasher = DefaultHasher::new();
    hash_into(key, &mut hasher);
    hasher.finish()
}

/// The worker that a hash is sent to: the hash modulo the number of
/// workers.
pub fn shard_index(hash: u64, shards: usize) -> (index: usize)
    requires
        shards > 0,
    ensures
        index < shards,
        index == (hash % (shards as u64)) as usize,
{
    (hash % (shards as u64)) as usize
}

/// The layer seen from the value `v` by the shard `shard`: each key with
/// the weight that the value has under it, where the key is routed to
/// the shard, and with weight zero where it is routed elsewhere.
pub open spec fn routed_level<K, V, R: MonoidValue>(
    layer: OrderedLayer<K, ColumnLayer<V, R>>,
    route: Seq<usize>,
    shard: int,
    v: V,
) -> Seq<(K, R)> {
    Seq::new(
        layer.keys@.len(),
        |i: int|
            (
                layer.keys@[i],
                if route[i] == shard {
                    weight_of(span(layer.offs@, layer.vals.entries(), i), v)
                } else {
                    R::zero_spec()
                },
            ),
    )
}

/// The weight that the tuple `(k, v)` has at the shard `shard`: its
/// weight in the layer, where `k` is routed to the shard, and zero
/// otherwise.
pub open spec fn routed_weight<K, V, R: MonoidValue>(
    layer: OrderedLayer<K, ColumnLayer<V, R>>,
    route: Seq<usize>,
    shard: int,
    k: K,
    v: V,
) -> R {
    weight_of(routed_level(layer, route, shard, v), k)
}

/// What the builder of the shard `shard` holds while the batch is
/// sharded: what is routed to it of the first `keys` keys, and, where the
/// key behind them is routed to it, the first `vals` values of that key.
pub open spec fn shard_progress<K, V, R: MonoidValue>(
    layer: OrderedLayer<K, ColumnLayer<V, R>>,
    route: Seq<usize>,
    shard: int,
    keys: int,
    vals: int,
    k: K,
    v: V,
) -> R {
    weight_of(routed_level(layer, route, shard, v).subrange(0, keys), k).add_spec(
        if keys < layer.keys@.len() && route[keys] == shard && layer.keys@[keys] == k {
            weight_of(span(layer.offs@, layer.vals.entries(), keys).subrange(0, vals), v)
        } else {
            R::zero_spec()
        },
    )
}

impl<K: Ord + Clone + Hash, V: Ord + Clone, R: MonoidValue> Stream<OrdIndexedZSet<K, V, R>> {
    /// Partitions the batch into `shards` batches: the tuples of the
    /// key at position `i` go to the batch `route[i]`. The batches are
    /// added to `outputs` in the order of the shards; `builders` is
    /// scratch space, and is left empty.
    pub fn shard_batch_by(
        batch: &OrdIndexedZSet<K, V, R>,
        shards: usize,
        route: &Vec<usize>,
        builders: &mut Vec<OrdIndexedZSetBuilder<K, V, R>>,
        outputs: &mut Vec<OrdIndexedZSet<K, V, R>>,
    )
        requires
            batch.valid(),
            lawful::<K>(),
            lawful::<V>(),
            faithful_clone::<K>(),
            faithful_clone::<V>(),
            shards > 0,
            route@.len() == batch.layer.keys@.len(),
            forall|i: int| 0 <= i < route@.len() ==> (#[trigger] route@[i]) < shards,
        ensures
            final(builders)@.len() == 0,
            final(outputs)@.len() == old(outputs)@.len() + shards,
            final(outputs)@.subrange(0, old(outputs)@.len() as int) == old(outputs)@,
            forall|shard: int|
                0 <= shard < shards ==> (#[trigger] final(outputs)@[old(outputs)@.len()
                    + shard]).valid(),
            forall|shard: int, k: K, v: V|
                0 <= shard < shards ==> #[trigger] final(outputs)@[old(outputs)@.len()
                    + shard].weight(k, v) == routed_weight(batch.layer, route@, shard, k, v),
    {
        builders.clear();
        let mut made: usize = 0;
        while made < shards
            invariant
                made <= shards,
                builders@.len() == made,
                forall|s: int| 0 <= s < made ==> (#[trigger] builders@[s]).wf(),
                forall|s: int| 0 <= s < made ==> (#[trigger] builders@[s]).builder.keys@.len() == 0,
                forall|s: int, k: K, v: V|
                    0 <= s < made ==> #[trigger] builders@[s].weight(k, v) == R::zero_spec(),
            decreases shards - made,
        {
            // We iterate over tuples in the batch in order; hence tuples added
            // to each shard are also ordered, so we can use the more efficient
            // `Builder` API (instead of `Batcher`) to construct output batches.
            builders.push(OrdIndexedZSetBuilder::with_capacity((), batch.len() / shards));
            made += 1;
        }
        let layer = &batch.layer;
        let ghost child = layer.vals.entries();
        let mut cursor = batch.cursor();
        proof {
            assert forall|s: int, k: K, v: V| 0 <= s < shards implies #[trigger] builders@[s].weight(
                k,
                v,
            ) == shard_progress(*layer, route@, s, 0, 0, k, v) by {
                assert(routed_level(*layer, route@, s, v).subrange(0, 0) =~= Seq::<(K, R)>::empty());
                if layer.keys@.len() > 0 {
                    assert(span(layer.offs@, child, 0).subrange(0, 0) =~= Seq::<(V, R)>::empty());
                }
                R::lemma_add_zero(R::zero_spec());
            }
        }
        while cursor.key_valid()
            invariant
                lawful::<K>(),
                lawful::<V>(),
                faithful_clone::<K>(),
                faithful_clone::<V>(),
                batch.valid(),
                layer == &batch.layer,
                child == layer.vals.entries(),
                shards > 0,
                route@.len() == layer.keys@.len(),
                forall|i: int| 0 <= i < route@.len() ==> (#[trigger] route@[i]) < shards,
                cursor.wf(),
                cursor.cursor.storage == layer,
                cursor.cursor.bounds.0 == 0,
                cursor.cursor.bounds.1 == layer.keys@.len(),
                cursor.cursor.pos < cursor.cursor.bounds.1 ==> cursor.cursor.child.pos
                    == layer.offs@[cursor.cursor.pos as int],
                builders@.len() == shards,
                forall|s: int| 0 <= s < shards ==> (#[trigger] builders@[s]).wf(),
                forall|s: int|
                    0 <= s < shards && (#[trigger] builders@[s]).builder.keys@.len() > 0
                        ==> exists|q: int|
                        0 <= q < cursor.cursor.pos && #[trigger] layer.keys@[q]
                            == builders@[s].builder.keys@.last(),
                forall|s: int, k: K, v: V|
                    0 <= s < shards ==> #[trigger] builders@[s].weight(k, v) == shard_progress(
                        *layer,
                        route@,
                        s,
                        cursor.cursor.pos as int,
                        0,
                        k,
                        v,
                    ),
            decreases cursor.cursor.bounds.1 - cursor.cursor.pos,
        {
            let ghost at = cursor.cursor.pos as int;
            let ghost first = layer.offs@[at] as int;
            let ghost run = span(layer.offs@, child, at);
            let batch_index = route[cursor.cursor.pos];
            proof {
                assert(layer.offs@[at] < layer.offs@[at + 1]);
            }
            while cursor.val_valid()
                invariant
                    lawful::<K>(),
                    lawful::<V>(),
                    faithful_clone::<K>(),
                    faithful_clone::<V>(),
                    batch.valid(),
                    layer == &batch.layer,
                    child == layer.vals.entries(),
                    shards > 0,
                    route@.len() == layer.keys@.len(),
                    batch_index == route@[at],
                    batch_index < shards,
                    cursor.wf(),
                    cursor.cursor.storage == layer,
                    cursor.cursor.pos == at,
                    cursor.cursor.bounds.0 == 0,
                    cursor.cursor.bounds.1 == layer.keys@.len(),
                    at < layer.keys@.len(),
                    first == layer.offs@[at],
                    run == span(layer.offs@, child, at),
                    first <= cursor.cursor.child.pos <= layer.offs@[at + 1],
                    builders@.len() == shards,
                    forall|s: int| 0 <= s < shards ==> (#[trigger] builders@[s]).wf(),
                    forall|s: int|
                        0 <= s < shards && s != batch_index && (
                        #[trigger] builders@[s]).builder.keys@.len() > 0 ==> exists|q: int|
                            0 <= q < at && #[trigger] layer.keys@[q]
                                == builders@[s].builder.keys@.last(),
                    cursor.cursor.child.pos == first ==> (builders@[batch_index as int].builder.keys@.len()
                        > 0 ==> exists|q: int|
                        0 <= q < at && #[trigger] layer.keys@[q]
                            == builders@[batch_index as int].builder.keys@.last()),
                    cursor.cursor.child.pos > first ==> {
                        let builder = builders@[batch_index as int].builder;
                        &&& builder.keys@.len() > 0
                        &&& builder.is_open()
                        &&& builder.keys@.last() == layer.keys@[at]
                        &&& builder.vals.open().len() > 0 ==> key_le(
                            builder.vals.open().last().0,
                            child[cursor.cursor.child.pos - 1].0,
                        )
                    },
                    forall|s: int, k: K, v: V|
                        0 <= s < shards ==> #[trigger] builders@[s].weight(k, v) == shard_progress(
                            *layer,
                            route@,
                            s,
                            at,
                            cursor.cursor.child.pos - first,
                            k,
                            v,
                        ),
                decreases layer.offs@[at + 1] - cursor.cursor.child.pos,
            {
                let ghost held = builders@;
                let ghost j = cursor.cursor.child.pos - first;
                let ghost tuple = child[cursor.cursor.child.pos as int];
                let key = duplicate(cursor.key());
                let val = duplicate(cursor.val());
                let weight = cursor.weight();
                proof {
                    assert(run[j] == tuple);
                    assert(tuple == (val, weight));
                    let builder = held[batch_index as int].builder;
                    if j == 0 {
                        if builder.keys@.len() > 0 {
                            let q = choose|q: int|
                                0 <= q < at && #[trigger] layer.keys@[q] == builder.keys@.last();
                            assert(key_lt(layer.keys@[q], layer.keys@[at]));
                        }
                    } else {
                        assert(run[j - 1] == child[cursor.cursor.child.pos - 1]);
                        assert(key_lt(run[j - 1].0, run[j].0));
                        if builder.vals.open().len() > 0 {
                            crate::order::lemma_le_lt_transitive(
                                builder.vals.open().last().0,
                                run[j - 1].0,
                                val,
                            );
                        }
                    }
                }
                builders[batch_index].push(((key, val), weight));
                cursor.step_val();
                proof {
                    assert forall|s: int| 0 <= s < shards implies (#[trigger] builders@[s]).wf() by {
                        if s != batch_index {
                            assert(builders@[s] == held[s]);
                        }
                    }
                    assert forall|s: int|
                        0 <= s < shards && s != batch_index && (
                        #[trigger] builders@[s]).builder.keys@.len() > 0 implies exists|q: int|
                        0 <= q < at && #[trigger] layer.keys@[q]
                            == builders@[s].builder.keys@.last() by {
                        assert(builders@[s] == held[s]);
                    }
                    assert(run.subrange(0, j + 1) =~= run.subrange(0, j).push(tuple));
                    assert forall|s: int, k: K, v: V| 0 <= s < shards implies #[trigger] builders@[s].weight(
                        k,
                        v,
                    ) == shard_progress(*layer, route@, s, at, j + 1, k, v) by {
                        if s != batch_index {
                            assert(builders@[s] == held[s]);
                            assert(held[s].weight(k, v) == shard_progress(
                                *layer,
                                route@,
                                s,
                                at,
                                j,
                                k,
                                v,
                            ));
                        } else {
                            assert(held[s].weight(k, v) == shard_progress(
                                *layer,
                                route@,
                                s,
                                at,
                                j,
                                k,
                                v,
                            ));
                            let base = weight_of(
                                routed_level(*layer, route@, s, v).subrange(0, at),
                                k,
                            );
                            lemma_weight_push(run.subrange(0, j), tuple, v);
                            if k == layer.keys@[at] {
                                R::lemma_add_associative(
                                    base,
                                    weight_of(run.subrange(0, j), v),
                                    share(tuple, v),
                                );
                            } else {
                                R::lemma_add_zero(base.add_spec(R::zero_spec()));
                            }
                        }
                    }
                }
            }
            proof {
                assert(cursor.cursor.child.pos - first == run.len());
            }
            cursor.step_key();
            proof {
                assert forall|s: int|
                    0 <= s < shards && (#[trigger] builders@[s]).builder.keys@.len() > 0 implies exists|
                    q: int,
                |
                    0 <= q < at + 1 && #[trigger] layer.keys@[q]
                        == builders@[s].builder.keys@.last() by {
                    if s == batch_index {
                        assert(layer.keys@[at] == builders@[s].builder.keys@.last());
                    } else {
                        let q = choose|q: int|
                            0 <= q < at && #[trigger] layer.keys@[q]
                                == builders@[s].builder.keys@.last();
                        assert(layer.keys@[q] == builders@[s].builder.keys@.last());
                    }
                }
                assert forall|s: int, k: K, v: V| 0 <= s < shards implies #[trigger] builders@[s].weight(
                    k,
                    v,
                ) == shard_progress(*layer, route@, s, at + 1, 0, k, v) by {
                    let level = routed_level(*layer, route@, s, v);
                    assert(run.subrange(0, run.len() as int) =~= run);
                    assert(level.subrange(0, at + 1) =~= level.subrange(0, at).push(level[at]));
                    lemma_weight_push(level.subrange(0, at), level[at], k);
                    if at + 1 < layer.keys@.len() {
                        assert(span(layer.offs@, child, at + 1).subrange(0, 0) =~= Seq::<
                            (V, R),
                        >::empty());
                    }
                    R::lemma_add_zero(weight_of(level.subrange(0, at + 1), k));
                    assert(builders@[s].weight(k, v) == shard_progress(
                        *layer,
                        route@,
                        s,
                        at,
                        run.len() as int,
                        k,
                        v,
                    ));
                }
            }
        }
        let ghost filled = builders@;
        let ghost before = outputs@;
        let mut taken: Vec<OrdIndexedZSetBuilder<K, V, R>> = Vec::new();
        core::mem::swap(builders, &mut taken);
        for builder in it: taken.into_iter()
            invariant
                it.seq() == filled,
                filled.len() == shards,
                forall|s: int| 0 <= s < shards ==> (#[trigger] filled[s]).wf(),
                builders@.len() == 0,
                outputs@.len() == before.len() + it.index(),
                outputs@.subrange(0, before.len() as int) == before,
                forall|s: int|
                    0 <= s < it.index() ==> (#[trigger] outputs@[before.len() + s]).valid(),
                forall|s: int, k: K, v: V|
                    0 <= s < it.index() ==> #[trigger] outputs@[before.len() + s].weight(k, v)
                        == filled[s].weight(k, v),
        {
            let ghost held = outputs@;
            outputs.push(builder.done());
            proof {
                assert(outputs@.subrange(0, before.len() as int) =~= held.subrange(
                    0,
                    before.len() as int,
                ));
            }
        }
        proof {
            assert forall|shard: int, k: K, v: V| 0 <= shard < shards implies #[trigger] outputs@[before.len()
                + shard].weight(k, v) == routed_weight(batch.layer, route@, shard, k, v) by {
                let level = routed_level(*layer, route@, shard, v);
                assert(level.subrange(0, layer.keys@.len() as int) =~= level);
                R::lemma_add_zero(weight_of(level, k));
                assert(filled[shard].weight(k, v) == shard_progress(
                    *layer,
                    route@,
                    shard,
                    layer.keys@.len() as int,
                    0,
                    k,
                    v,
                ));
            }
        }
    }

    /// Partitions the batch into `shards` batches by the hash of the key:
    /// the tuples of a key go to the batch whose number is the hash of the
    /// key modulo `shards`. The batches are added to `outputs` in the order
    /// of the shards; `builders` is scratch space, and is left empty.
    pub fn shard_batch(
        batch: &OrdIndexedZSet<K, V, R>,
        shards: usize,
        builders: &mut Vec<OrdIndexedZSetBuilder<K, V, R>>,
        outputs: &mut Vec<OrdIndexedZSet<K, V, R>>,
    )
        requires
            batch.valid(),
            lawful::<K>(),
            lawful::<V>(),
            faithful_clone::<K>(),
            faithful_clone::<V>(),
            shards > 0,
        ensures
            final(builders)@.len() == 0,
            final(outputs)@.len() == old(outputs)@.len() + shards,
            final(outputs)@.subrange(0, old(outputs)@.len() as int) == old(outputs)@,
            exists|route: Seq<usize>|
                {
                    &&& #[trigger] route.len() == batch.layer.keys@.len()
                    &&& forall|i: int| 0 <= i < route.len() ==> (#[trigger] route[i]) < shards
                    &&& forall|shard: int|
                        0 <= shard < shards ==> (#[trigger] final(outputs)@[old(outputs)@.len()
                            + shard]).valid()
                    &&& forall|shard: int, k: K, v: V|
                        0 <= shard < shards ==> #[trigger] final(outputs)@[old(outputs)@.len()
                            + shard].weight(k, v) == routed_weight(batch.layer, route, shard, k, v)
                },
    {
        let count = batch.key_count();
        let mut route: Vec<usize> = Vec::with_capacity(count);
        let mut at: usize = 0;
        while at < count
            invariant
                count == batch.layer.keys@.len(),
                shards > 0,
                at <= count,
                route@.len() == at,
                forall|i: int| 0 <= i < at ==> (#[trigger] route@[i]) < shards,
            decreases count - at,
        {
            route.push(shard_index(default_hash(&batch.layer.keys[at]), shards));
            at += 1;
        }
        Self::shard_batch_by(batch, shards, &route, builders, outputs);
        proof {
            assert(route@.len() == batch.layer.keys@.len());
        }
    }
}

} // verus!
