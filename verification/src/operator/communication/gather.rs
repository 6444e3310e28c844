//! The channel on which one worker gathers the batches of all workers,
//! and the operators at its two ends.

use vstd::prelude::*;
use core::marker::PhantomData;
use crate::algebra::AddByRef;
use crate::algebra::HasZero;
use crate::algebra::MonoidValue;
use crate::algebra::NumEntries;
use crate::circuit::CacheKey;
use crate::circuit::Circuit;
use crate::circuit::GatherEnd;
use crate::circuit::NodeKind;
use crate::circuit::OwnershipPreference;
use crate::circuit::Stream;
use crate::operator::communication::shard::routed_level;
use crate::operator::communication::shard::routed_weight;
use crate::time::Scope;
use crate::trace::layers::column_layer::ColumnLayer;
use crate::trace::layers::ordered::OrderedLayer;
use crate::trace::layers::ordered::span;
use crate::trace::ord::indexed_zset_batch::OrdIndexedZSet;
use crate::trace::ord::indexed_zset_batch::added_indexed;
use crate::trace::spine_fueled::Spine;
use crate::trace::spine_fueled::total;
use crate::zset::weight_of;
use crate::zset::lemma_add_interchange;
use crate::zset::lemma_weight_all_zero;

verus! {

/// What the worker `worker` has at the receiving end of a gathering at
/// the worker `receiver`.
pub open spec fn gather_end_of(worker: usize, receiver: usize) -> GatherEnd {
    if worker == receiver {
        GatherEnd::Receiving
    } else {
        GatherEnd::Empty
    }
}

/// Chooses the receiving end of a gathering for a worker: the consumer
/// of the channel at the receiver, the empty consumer at every other
/// worker.
pub fn gather_end(worker: usize, receiver: usize) -> (end: GatherEnd)
    ensures
        end == gather_end_of(worker, receiver),
{
    if worker == receiver {
        GatherEnd::Receiving
    } else {
        GatherEnd::Empty
    }
}

/// What a worker sees at its end of a gathering at one tick: at the
/// receiver the trace of the batches that all workers sent, which are
/// taken from the channel; at every other worker an empty trace, with
/// the channel left as it is.
pub fn eval_gather_end<T: AddByRef + NumEntries>(end: GatherEnd, gather: &mut GatherData<T>) -> (spine:
    Spine<T>)
    requires
        T::usable(),
        end == GatherEnd::Receiving ==> old(gather).ready(),
        end == GatherEnd::Receiving ==> forall|worker: int|
            0 <= worker < old(gather).slots().len() ==> (#[trigger] old(gather).slots()[worker]).unwrap().wf(),
    ensures
        spine.wf(),
        end == GatherEnd::Receiving ==> {
            &&& spine.model() == total(sent(old(gather).slots()))
            &&& final(gather).slots().len() == old(gather).slots().len()
            &&& forall|worker: int|
                0 <= worker < final(gather).slots().len() ==> (#[trigger] final(gather).slots()[worker]).is_none()
        },
        end == GatherEnd::Empty ==> {
            &&& spine.batches@.len() == 0
            &&& spine.model() == T::zero_model()
            &&& final(gather).slots() == old(gather).slots()
        },
{
    match end {
        GatherEnd::Receiving => GatherConsumer::new().eval(gather),
        GatherEnd::Empty => EmptyGatherConsumer::new().eval(),
    }
}

impl<B> Stream<B> {
    /// Collect all shards of a stream at the same worker.
    ///
    /// The output stream in `receiver_worker` will contain a union of all
    /// input batches across all workers. The output streams in all other
    /// workers will contain empty batches.
    ///
    /// With one worker the stream is its own gathering. Asked for twice
    /// with the same receiver, the gathering is one operator. Otherwise
    /// the next number of the sequence of exchanges is taken, on which the
    /// workers meet, and an exchange and a consolidation are added. The
    /// worker that is the receiver gets the receiving end of the
    /// exchange; every other worker gets the end that yields an empty
    /// trace.
    pub fn gather(&self, circuit: &mut Circuit, receiver_worker: usize) -> (gathered: Stream<B>)
        requires
            old(circuit).wf(),
            self.node < old(circuit).nodes@.len(),
            receiver_worker < old(circuit).workers,
            old(circuit).sequence < usize::MAX,
        ensures
            final(circuit).wf(),
            final(circuit).workers == old(circuit).workers,
            final(circuit).worker_index == old(circuit).worker_index,
            final(circuit).root_scope == old(circuit).root_scope,
            gathered.node < final(circuit).nodes@.len(),
            old(circuit).workers == 1 ==> gathered.node == self.node && *final(circuit) == *old(circuit),
            old(circuit).workers > 1 && old(circuit).cached(
                CacheKey::GatherId(self.node, receiver_worker),
            ).is_some() ==> Some(gathered.node) == old(circuit).cached(
                CacheKey::GatherId(self.node, receiver_worker),
            ) && *final(circuit) == *old(circuit),
            old(circuit).workers > 1 && old(circuit).cached(
                CacheKey::GatherId(self.node, receiver_worker),
            ).is_none() ==> {
                &&& final(circuit).sequence == old(circuit).sequence + 1
                &&& final(circuit).extends(old(circuit), 2)
                &&& gathered.node == old(circuit).nodes@.len() + 1
                &&& final(circuit).node_is(
                    (gathered.node - 1) as usize,
                    NodeKind::GatherExchange {
                        receiver: receiver_worker,
                        channel: old(circuit).sequence,
                        end: gather_end_of(old(circuit).worker_index, receiver_worker),
                    },
                    seq![(self.node, OwnershipPreference::PreferOwned)],
                )
                &&& final(circuit).node_is(
                    gathered.node,
                    NodeKind::Consolidate,
                    seq![((gathered.node - 1) as usize, OwnershipPreference::PreferOwned)],
                )
                &&& final(circuit).caches(
                    old(circuit),
                    CacheKey::GatherId(self.node, receiver_worker),
                    gathered.node,
                )
            },
    {
        let workers = circuit.num_workers();
        if workers == 1 {
            self.copy()
        } else {
            let key = CacheKey::GatherId(self.origin_node_id(), receiver_worker);
            match circuit.cache_get(key) {
                Some(node) => Stream::at(node),
                None => {
                    // The workers meet on the channel with this number.
                    let channel = circuit.sequence_next();
                    let end = gather_end(circuit.worker_index, receiver_worker);
                    let exchange = circuit.add_unary(
                        NodeKind::GatherExchange { receiver: receiver_worker, channel, end },
                        self.node,
                        OwnershipPreference::PreferOwned,
                    );
                    // Is `consolidate` always necessary? Some (all?) consumers may be
                    // happy working with traces.
                    let gathered = circuit.add_unary(
                        NodeKind::Consolidate,
                        exchange,
                        OwnershipPreference::PreferOwned,
                    );
                    circuit.cache_insert(key, gathered);
                    Stream::at(gathered)
                },
            }
        }
    }
}

/// The channel of a gathering: one slot for each worker, which holds the
/// batch of that worker for the tick, or nothing.
pub struct GatherData<T> {
    slots: Vec<Option<T>>,
}

impl<T> GatherData<T> {
    /// The slots: what each worker has sent and the receiver has not yet
    /// taken.
    pub closed spec fn slots(&self) -> Seq<Option<T>> {
        self.slots@
    }

    /// Every worker has sent its batch.
    pub open spec fn ready(&self) -> bool {
        forall|worker: int| 0 <= worker < self.slots().len() ==> (#[trigger] self.slots()[worker]).is_some()
    }

    /// A channel for `length` workers, with nothing sent.
    pub fn new(length: usize) -> (gather: Self)
        ensures
            gather.slots().len() == length,
            forall|worker: int| 0 <= worker < length ==> (#[trigger] gather.slots()[worker]).is_none(),
    {
        let mut slots: Vec<Option<T>> = Vec::with_capacity(length);
        let mut worker: usize = 0;
        while worker < length
            invariant
                worker <= length,
                slots@.len() == worker,
                forall|i: int| 0 <= i < worker ==> (#[trigger] slots@[i]).is_none(),
            decreases length - worker,
        {
            slots.push(None);
            worker += 1;
        }
        GatherData { slots }
    }

    /// Return the total number of workers
    pub fn workers(&self) -> (workers: usize)
        ensures
            workers == self.slots().len(),
    {
        self.slots.len()
    }

    /// Returns `true` if all channels are filled
    pub fn all_channels_ready(&self) -> (ready: bool)
        ensures
            ready == self.ready(),
    {
        let n = self.slots.len();
        let mut worker: usize = 0;
        while worker < n
            invariant
                n == self.slots@.len(),
                worker <= n,
                forall|i: int| 0 <= i < worker ==> (#[trigger] self.slots@[i]).is_some(),
            decreases n - worker,
        {
            if self.slots[worker].is_none() {
                return false;
            }
            worker += 1;
        }
        true
    }

    /// Pushes a value to a channel. The worker is one of the workers of
    /// the channel, it is the only one that pushes to its slot, and what
    /// it pushed before has been taken.
    pub fn push(&mut self, worker: usize, value: T)
        requires
            worker < old(self).slots().len(),
            old(self).slots()[worker as int].is_none(),
        ensures
            final(self).slots() == old(self).slots().update(worker as int, Some(value)),
    {
        self.slots[worker] = Some(value);
    }

    /// Pops a value from a channel, which is left empty.
    pub fn pop(&mut self, worker: usize) -> (value: T)
        requires
            worker < old(self).slots().len(),
            old(self).slots()[worker as int].is_some(),
        ensures
            Some(value) == old(self).slots()[worker as int],
            final(self).slots() == old(self).slots().update(worker as int, None),
    {
        let mut taken: Option<T> = None;
        core::mem::swap(&mut self.slots[worker], &mut taken);
        taken.unwrap()
    }
}

/// The sending end of a gathering at one worker.
pub struct GatherProducer<T> {
    worker: usize,
    __type: PhantomData<T>,
}

impl<T> GatherProducer<T> {
    /// The worker that sends.
    pub closed spec fn worker(&self) -> usize {
        self.worker
    }

    /// Create a new `GatherProducer` for `worker`, which is the only
    /// producer for that worker.
    pub fn new(worker: usize) -> (producer: Self)
        ensures
            producer.worker() == worker,
    {
        Self { worker, __type: PhantomData }
    }

    /// The name of the operator.
    pub fn name(&self) -> (name: &'static str)
        ensures
            name@ == "GatherProducer"@,
    {
        "GatherProducer"
    }

    /// The operator keeps no state, so it is always at a fixed point.
    pub fn fixedpoint(&self, _scope: Scope) -> (fixed: bool)
        ensures
            fixed,
    {
        true
    }

    /// The batch is sent as it is, so it is better owned.
    pub fn input_preference(&self) -> (preference: OwnershipPreference)
        ensures
            preference == OwnershipPreference::PreferOwned,
    {
        OwnershipPreference::PreferOwned
    }

    /// Sends `input` on the channel. Reports whether the receiver is to
    /// be woken: it is woken after every batch, and looks for itself
    /// whether all have come.
    pub fn eval_owned(&self, gather: &mut GatherData<T>, input: T) -> (notify: bool)
        requires
            self.worker() < old(gather).slots().len(),
            old(gather).slots()[self.worker() as int].is_none(),
        ensures
            notify,
            final(gather).slots() == old(gather).slots().update(self.worker() as int, Some(input)),
    {
        gather.push(self.worker, input);
        true
    }
}

impl<T: HasZero> GatherProducer<T> {
    /// Sends a copy of `input` on the channel.
    pub fn eval(&self, gather: &mut GatherData<T>, input: &T) -> (notify: bool)
        requires
            T::usable(),
            input.wf(),
            self.worker() < old(gather).slots().len(),
            old(gather).slots()[self.worker() as int].is_none(),
        ensures
            notify,
            final(gather).slots().len() == old(gather).slots().len(),
            final(gather).slots()[self.worker() as int] matches Some(sent) && sent.wf()
                && sent.model() == input.model(),
            forall|other: int|
                0 <= other < old(gather).slots().len() && other != self.worker() ==> final(gather).slots()[other] == old(gather).slots()[other],
    {
        gather.push(self.worker, input.duplicate());
        true
    }
}

/// What the workers have sent, in the order of the workers.
pub open spec fn sent<T>(slots: Seq<Option<T>>) -> Seq<T> {
    Seq::new(slots.len(), |worker: int| slots[worker].unwrap())
}

/// The receiving end of a gathering, at the worker that gathers.
pub struct GatherConsumer<T> {
    __type: PhantomData<T>,
}

impl<T> GatherConsumer<T> {
    /// The receiving end of a gathering.
    pub fn new() -> Self {
        Self { __type: PhantomData }
    }

    /// The name of the operator.
    pub fn name(&self) -> (name: &'static str)
        ensures
            name@ == "GatherConsumer"@,
    {
        "GatherConsumer"
    }

    /// The operator waits for other workers, so the scheduler waits to be
    /// woken rather than ask again and again.
    pub fn is_async(&self) -> (is_async: bool)
        ensures
            is_async,
    {
        true
    }

    /// Whether every worker has sent its batch.
    pub fn ready(&self, gather: &GatherData<T>) -> (ready: bool)
        ensures
            ready == gather.ready(),
    {
        gather.all_channels_ready()
    }

    /// The operator keeps no state, so it is always at a fixed point.
    pub fn fixedpoint(&self, _scope: Scope) -> (fixed: bool)
        ensures
            fixed,
    {
        true
    }
}

impl<T: AddByRef + NumEntries> GatherConsumer<T> {
    /// Takes the batches of all workers from the channel, which is left
    /// empty, and returns the trace of them: their sum.
    pub fn eval(&self, gather: &mut GatherData<T>) -> (spine: Spine<T>)
        requires
            T::usable(),
            old(gather).ready(),
            forall|worker: int|
                0 <= worker < old(gather).slots().len() ==> (#[trigger] old(gather).slots()[worker]).unwrap().wf(),
        ensures
            spine.wf(),
            spine.model() == total(sent(old(gather).slots())),
            final(gather).slots().len() == old(gather).slots().len(),
            forall|worker: int|
                0 <= worker < final(gather).slots().len() ==> (#[trigger] final(gather).slots()[worker]).is_none(),
    {
        let ghost batches = sent(old(gather).slots());
        let mut spine = Spine::new();
        let workers = gather.workers();
        let mut worker: usize = 0;
        proof {
            assert(batches.subrange(0, 0) =~= Seq::<T>::empty());
        }
        while worker < workers
            invariant
                T::usable(),
                workers == old(gather).slots().len(),
                gather.slots().len() == workers,
                worker <= workers,
                batches == sent(old(gather).slots()),
                forall|i: int| 0 <= i < worker ==> (#[trigger] gather.slots()[i]).is_none(),
                forall|i: int| worker <= i < workers ==> gather.slots()[i] == old(gather).slots()[i],
                forall|i: int|
                    0 <= i < workers ==> (#[trigger] old(gather).slots()[i]).is_some() && old(gather).slots()[i].unwrap().wf(),
                spine.wf(),
                spine.model() == total(batches.subrange(0, worker as int)),
            decreases workers - worker,
        {
            assert(old(gather).slots()[worker as int].is_some());
            let batch = gather.pop(worker);
            proof {
                assert(batch == batches[worker as int]);
                assert(batches.subrange(0, worker + 1).drop_last() =~= batches.subrange(
                    0,
                    worker as int,
                ));
                assert(batches.subrange(0, worker + 1).last() == batch);
            }
            spine.insert(batch);
            worker += 1;
        }
        proof {
            assert(batches.subrange(0, workers as int) =~= batches);
        }
        spine
    }
}

/// The consumer half of the gather operator that's given to all
/// the workers who aren't the target of the gather, simply yields
/// an empty trace on each clock cycle
pub struct EmptyGatherConsumer<T> {
    __type: PhantomData<T>,
}

impl<T> EmptyGatherConsumer<T> {
    /// The operator that stands in for the receiving end.
    pub fn new() -> Self {
        Self { __type: PhantomData }
    }

    /// The name of the operator.
    pub fn name(&self) -> (name: &'static str)
        ensures
            name@ == "GatherConsumer"@,
    {
        "GatherConsumer"
    }

    /// The operator keeps no state, so it is always at a fixed point.
    pub fn fixedpoint(&self, _scope: Scope) -> (fixed: bool)
        ensures
            fixed,
    {
        true
    }
}

impl<T: AddByRef + NumEntries> EmptyGatherConsumer<T> {
    /// The empty trace.
    pub fn eval(&self) -> (spine: Spine<T>)
        ensures
            spine.wf(),
            spine.batches@.len() == 0,
            spine.model() == T::zero_model(),
    {
        Spine::new()
    }
}

/// The layer seen from the value `v` by the shards before `upto`
/// together: each key with the weight that the value has under it, where
/// the key is routed to one of them.
pub open spec fn routed_below<K, V, R: MonoidValue>(
    layer: OrderedLayer<K, ColumnLayer<V, R>>,
    route: Seq<usize>,
    upto: int,
    v: V,
) -> Seq<(K, R)> {
    Seq::new(
        layer.keys@.len(),
        |i: int|
            (
                layer.keys@[i],
                if route[i] < upto {
                    weight_of(span(layer.offs@, layer.vals.entries(), i), v)
                } else {
                    R::zero_spec()
                },
            ),
    )
}

/// Where `c` has the keys of `a` and of `b`, each with the sum of its
/// weights in the two, every key weighs in `c` what it weighs in `a` and
/// `b` together.
pub proof fn lemma_weight_adds<K, R: MonoidValue>(
    a: Seq<(K, R)>,
    b: Seq<(K, R)>,
    c: Seq<(K, R)>,
    k: K,
)
    requires
        a.len() == b.len(),
        a.len() == c.len(),
        forall|i: int| 0 <= i < a.len() ==> (#[trigger] a[i]).0 == b[i].0,
        forall|i: int|
            0 <= i < a.len() ==> (#[trigger] c[i]) == (a[i].0, a[i].1.add_spec(b[i].1)),
    ensures
        weight_of(c, k) == weight_of(a, k).add_spec(weight_of(b, k)),
    decreases a.len(),
{
    if a.len() == 0 {
        R::lemma_add_zero(R::zero_spec());
    } else {
        let n = a.len() - 1;
        assert(c[n] == (a[n].0, a[n].1.add_spec(b[n].1)));
        assert forall|i: int| 0 <= i < n implies (#[trigger] a.drop_last()[i]).0
            == b.drop_last()[i].0 by {
            assert(a.drop_last()[i] == a[i]);
            assert(b.drop_last()[i] == b[i]);
        }
        assert forall|i: int| 0 <= i < n implies (#[trigger] c.drop_last()[i]) == (
            a.drop_last()[i].0,
            a.drop_last()[i].1.add_spec(b.drop_last()[i].1),
        ) by {
            assert(c.drop_last()[i] == c[i]);
            assert(a.drop_last()[i] == a[i]);
            assert(b.drop_last()[i] == b[i]);
        }
        lemma_weight_adds(a.drop_last(), b.drop_last(), c.drop_last(), k);
        if a[n].0 == k {
            lemma_add_interchange(
                weight_of(a.drop_last(), k),
                weight_of(b.drop_last(), k),
                a[n].1,
                b[n].1,
            );
        }
    }
}

/// Sharding a batch and gathering the shards gives the batch back: where
/// each key of a batch is routed to one of `shards` shards, and the part
/// of each shard holds the tuples of the keys routed to it, the sum of
/// the parts is the batch.
pub proof fn lemma_shard_gather_identity<K: Ord + Clone, V: Ord + Clone, R: MonoidValue>(
    batch: OrdIndexedZSet<K, V, R>,
    route: Seq<usize>,
    parts: Seq<OrdIndexedZSet<K, V, R>>,
)
    requires
        batch.valid(),
        route.len() == batch.layer.keys@.len(),
        forall|i: int| 0 <= i < route.len() ==> (#[trigger] route[i]) < parts.len(),
        forall|shard: int, k: K, v: V|
            0 <= shard < parts.len() ==> #[trigger] parts[shard].weight(k, v) == routed_weight(
                batch.layer,
                route,
                shard,
                k,
                v,
            ),
    ensures
        total(parts) == batch.weights(),
{
    lemma_shards_below(batch, route, parts, parts.len() as int);
    assert(parts.subrange(0, parts.len() as int) =~= parts);
    assert forall|k: K, v: V| #[trigger]
        total(parts)(k, v) == batch.weights()(k, v) by {
        assert(routed_below(batch.layer, route, parts.len() as int, v) =~= batch.layer.level(v));
    }
    assert(total(parts) =~= batch.weights());
}

/// The sum of the parts of the shards before `upto` holds the tuples of
/// the keys that are routed to one of them.
proof fn lemma_shards_below<K: Ord + Clone, V: Ord + Clone, R: MonoidValue>(
    batch: OrdIndexedZSet<K, V, R>,
    route: Seq<usize>,
    parts: Seq<OrdIndexedZSet<K, V, R>>,
    upto: int,
)
    requires
        batch.valid(),
        route.len() == batch.layer.keys@.len(),
        0 <= upto <= parts.len(),
        forall|shard: int, k: K, v: V|
            0 <= shard < parts.len() ==> #[trigger] parts[shard].weight(k, v) == routed_weight(
                batch.layer,
                route,
                shard,
                k,
                v,
            ),
    ensures
        forall|k: K, v: V| #[trigger]
            total(parts.subrange(0, upto))(k, v) == weight_of(
                routed_below(batch.layer, route, upto, v),
                k,
            ),
    decreases upto,
{
    let some = parts.subrange(0, upto);
    if upto == 0 {
        assert forall|k: K, v: V| #[trigger]
            total(some)(k, v) == weight_of(routed_below(batch.layer, route, upto, v), k) by {
            let none = routed_below(batch.layer, route, 0, v);
            assert forall|i: int| 0 <= i < none.len() implies (#[trigger] none[i]).1
                == R::zero_spec() by {}
            lemma_weight_all_zero(none, k);
        }
    } else {
        lemma_shards_below(batch, route, parts, upto - 1);
        assert(some.drop_last() =~= parts.subrange(0, upto - 1));
        assert(some.last() == parts[upto - 1]);
        assert forall|k: K, v: V| #[trigger]
            total(some)(k, v) == weight_of(routed_below(batch.layer, route, upto, v), k) by {
            let a = routed_below(batch.layer, route, upto - 1, v);
            let b = routed_level(batch.layer, route, upto - 1, v);
            let c = routed_below(batch.layer, route, upto, v);
            assert forall|i: int| 0 <= i < a.len() implies (#[trigger] c[i]) == (
                a[i].0,
                a[i].1.add_spec(b[i].1),
            ) by {
                if route[i] < upto - 1 {
                    R::lemma_add_zero(a[i].1);
                } else {
                    crate::zset::lemma_zero_add(b[i].1);
                }
            }
            lemma_weight_adds(a, b, c, k);
            assert(total(some) == added_indexed(
                total(some.drop_last()),
                some.last().weights(),
            ));
            assert(total(some.drop_last())(k, v) == weight_of(a, k));
            assert(some.last().weights()(k, v) == parts[upto - 1].weight(k, v));
            assert(parts[upto - 1].weight(k, v) == weight_of(b, k));
        }
    }
}

/// The sum of the values that `models` stand for.
pub open spec fn total_of<B: AddByRef>(models: Seq<B::Model>) -> B::Model
    decreases models.len(),
{
    if models.len() == 0 {
        B::zero_model()
    } else {
        B::add_model(total_of::<B>(models.drop_last()), models.last())
    }
}

/// What the batches stand for, one by one.
pub open spec fn models_of<B: HasZero>(batches: Seq<B>) -> Seq<B::Model> {
    Seq::new(batches.len(), |i: int| batches[i].model())
}

/// What the first `workers` workers send to the worker `receiver`, where
/// `sent[w][r]` is what the worker `w` sends to the worker `r`.
pub open spec fn column<B: AddByRef>(sent: Seq<Seq<B::Model>>, workers: int, receiver: int) -> Seq<
    B::Model,
> {
    Seq::new(workers as nat, |w: int| sent[w][receiver])
}

/// What each of `receivers` workers receives from the first `workers`
/// workers together.
pub open spec fn column_sums<B: AddByRef>(
    sent: Seq<Seq<B::Model>>,
    workers: int,
    receivers: int,
) -> Seq<B::Model> {
    Seq::new(receivers as nat, |r: int| total_of::<B>(column::<B>(sent, workers, r)))
}

/// What each of the first `workers` workers sends to all workers
/// together.
pub open spec fn row_sums<B: AddByRef>(sent: Seq<Seq<B::Model>>, workers: int) -> Seq<B::Model> {
    Seq::new(workers as nat, |w: int| total_of::<B>(sent[w]))
}

/// The sum of batches is the sum of what they stand for.
pub proof fn lemma_total_of_models<B: AddByRef>(batches: Seq<B>)
    ensures
        total(batches) == total_of::<B>(models_of(batches)),
    decreases batches.len(),
{
    if batches.len() > 0 {
        lemma_total_of_models(batches.drop_last());
        assert(models_of(batches).drop_last() =~= models_of(batches.drop_last()));
    }
}

/// Sums may be added term by term: where each value of `c` is the sum
/// of the values of `a` and `b` at its position, the sum of `c` is the
/// sum of `a` and the sum of `b` together.
pub proof fn lemma_total_of_sums<B: AddByRef>(a: Seq<B::Model>, b: Seq<B::Model>, c: Seq<B::Model>)
    requires
        a.len() == b.len(),
        a.len() == c.len(),
        forall|i: int| 0 <= i < c.len() ==> #[trigger] c[i] == B::add_model(a[i], b[i]),
    ensures
        total_of::<B>(c) == B::add_model(total_of::<B>(a), total_of::<B>(b)),
    decreases a.len(),
{
    if a.len() == 0 {
        B::lemma_add_model_zero(B::zero_model());
    } else {
        let n = a.len() - 1;
        assert forall|i: int| 0 <= i < n implies #[trigger] c.drop_last()[i] == B::add_model(
            a.drop_last()[i],
            b.drop_last()[i],
        ) by {
            assert(c[i] == B::add_model(a[i], b[i]));
        }
        lemma_total_of_sums::<B>(a.drop_last(), b.drop_last(), c.drop_last());
        assert(c[n] == B::add_model(a[n], b[n]));
        let sum_a = total_of::<B>(a.drop_last());
        let sum_b = total_of::<B>(b.drop_last());
        // (sum_a + sum_b) + (a + b) == (sum_a + a) + (sum_b + b)
        B::lemma_add_model_associative(sum_a, sum_b, B::add_model(a[n], b[n]));
        B::lemma_add_model_associative(sum_b, a[n], b[n]);
        B::lemma_add_model_commutative(sum_b, a[n]);
        B::lemma_add_model_associative(a[n], sum_b, b[n]);
        B::lemma_add_model_associative(sum_a, a[n], B::add_model(sum_b, b[n]));
    }
}

/// What all workers receive together is what all workers send together:
/// the sums of the columns of `sent` add up to what the sums of its rows
/// add up to.
pub proof fn lemma_double_sum<B: AddByRef>(sent: Seq<Seq<B::Model>>, workers: int, receivers: int)
    requires
        0 <= workers <= sent.len(),
        0 <= receivers,
        forall|w: int| 0 <= w < sent.len() ==> (#[trigger] sent[w]).len() == receivers,
    ensures
        total_of::<B>(column_sums::<B>(sent, workers, receivers)) == total_of::<B>(
            row_sums::<B>(sent, workers),
        ),
    decreases workers,
{
    let columns = column_sums::<B>(sent, workers, receivers);
    if workers == 0 {
        lemma_total_of_zeros::<B>(columns);
    } else {
        let fewer = column_sums::<B>(sent, workers - 1, receivers);
        let last = sent[workers - 1];
        assert forall|r: int| 0 <= r < receivers implies #[trigger] columns[r] == B::add_model(
            fewer[r],
            last[r],
        ) by {
            let whole = column::<B>(sent, workers, r);
            assert(whole.drop_last() =~= column::<B>(sent, workers - 1, r));
            assert(whole.last() == last[r]);
        }
        lemma_total_of_sums::<B>(fewer, last, columns);
        lemma_double_sum::<B>(sent, workers - 1, receivers);
        let rows = row_sums::<B>(sent, workers);
        assert(rows.drop_last() =~= row_sums::<B>(sent, workers - 1));
        assert(rows.last() == total_of::<B>(last));
    }
}

/// Zeros add up to zero.
pub proof fn lemma_total_of_zeros<B: AddByRef>(zeros: Seq<B::Model>)
    requires
        forall|i: int| 0 <= i < zeros.len() ==> #[trigger] zeros[i] == B::zero_model(),
    ensures
        total_of::<B>(zeros) == B::zero_model(),
    decreases zeros.len(),
{
    if zeros.len() > 0 {
        assert(zeros.last() == zeros[zeros.len() - 1]);
        lemma_total_of_zeros::<B>(zeros.drop_last());
        B::lemma_add_model_zero(B::zero_model());
    }
}

/// An exchange loses nothing and adds nothing: where each worker splits
/// its input into parts, one for each worker, and each worker receives
/// the sum of the parts that are addressed to it, what the workers
/// receive adds up to what the inputs add up to. So what is gathered
/// from the workers behind a sharding is the sum of the inputs before it.
pub proof fn lemma_exchange_total<B: AddByRef>(
    inputs: Seq<B>,
    sent: Seq<Seq<B>>,
    received: Seq<B>,
)
    requires
        sent.len() == inputs.len(),
        forall|w: int| 0 <= w < sent.len() ==> (#[trigger] sent[w]).len() == received.len(),
        forall|w: int| 0 <= w < sent.len() ==> total(#[trigger] sent[w]) == inputs[w].model(),
        forall|r: int|
            0 <= r < received.len() ==> (#[trigger] received[r]).model() == total(
                Seq::new(sent.len(), |w: int| sent[w][r]),
            ),
    ensures
        total(received) == total(inputs),
{
    let workers = sent.len() as int;
    let receivers = received.len() as int;
    let models = Seq::new(sent.len(), |w: int| models_of(sent[w]));
    lemma_double_sum::<B>(models, workers, receivers);
    lemma_total_of_models(received);
    lemma_total_of_models(inputs);
    assert(models_of(received) =~= column_sums::<B>(models, workers, receivers)) by {
        assert forall|r: int| 0 <= r < receivers implies models_of(received)[r] == column_sums::<B>(
            models,
            workers,
            receivers,
        )[r] by {
            let addressed = Seq::new(sent.len(), |w: int| sent[w][r]);
            lemma_total_of_models(addressed);
            assert(models_of(addressed) =~= column::<B>(models, workers, r));
        }
    }
    assert(models_of(inputs) =~= row_sums::<B>(models, workers)) by {
        assert forall|w: int| 0 <= w < workers implies models_of(inputs)[w] == row_sums::<B>(
            models,
            workers,
        )[w] by {
            lemma_total_of_models(sent[w]);
        }
    }
}

} // verus!
