//! Operators that keep the batches of a stream in a trace.

use vstd::prelude::*;
use core::marker::PhantomData;
use crate::algebra::AddByRef;
use crate::algebra::HasZero;
use crate::algebra::MonoidValue;
use crate::algebra::NumEntries;
use crate::circuit::CacheKey;
use crate::circuit::Circuit;
use crate::circuit::NodeId;
use crate::circuit::NodeKind;
use crate::circuit::OwnershipPreference;
use crate::circuit::ShardingPolicy;
use crate::circuit::Stream;
use crate::order::duplicate;
use crate::order::faithful_clone;
use crate::order::key_lt;
use crate::order::lawful;
use crate::time::Scope;
use crate::time::Timestamp;
use crate::trace::ord::key_batch::OrdKeyBatch;
use crate::trace::ord::key_batch::OrdKeyBuilder;
use crate::trace::ord::key_batch::added_timed;
use crate::trace::ord::zset_batch::OrdZSet;
use crate::trace::spine_fueled::Spine;
use crate::trace::spine_fueled::Trace;
use crate::zset::weight_of;
use crate::zset::lemma_weight_push;

verus! {

/// The batch in which each key of `weights` has its weight at `time`,
/// and no weight at any other time.
pub open spec fn stamped<K, T, R: MonoidValue>(weights: spec_fn(K) -> R, time: T) -> spec_fn(
    K,
    T,
) -> R {
    |k: K, t: T|
        if t == time {
            weights(k)
        } else {
            R::zero_spec()
        }
}

/// The builder has taken the first `count` keys of a batch: it holds no key
/// where `count` is 0, and its last key is the last of them otherwise.
pub open spec fn pushed_up_to<K>(built: Seq<K>, keys: Seq<K>, count: int) -> bool {
    if count == 0 {
        built.len() == 0
    } else {
        built.len() > 0 && built.last() == keys[count - 1]
    }
}

/// Add `timestamp` to all tuples in the input batch.
///
/// Given an input batch without timing information, generate an output
/// batch by adding the same time `timestamp` to each tuple.
///
/// Most operators output untimed batches.  When such a batch is added to
/// a trace, the current timestamp must be added to it.
pub fn batch_add_time<K: Ord + Clone, T: Ord + Clone + Timestamp, R: MonoidValue>(
    batch: &OrdZSet<K, R>,
    timestamp: &T,
) -> (timed: OrdKeyBatch<K, T, R>)
    requires
        batch.valid(),
        lawful::<K>(),
        lawful::<T>(),
        faithful_clone::<K>(),
    ensures
        timed.wf(),
        timed.weights() == stamped(batch.weights(), *timestamp),
        forall|t: T| #[trigger] timed.lower.le_spec(&t) <==> timestamp.le_spec(&t),
        !timestamp.advance_spec(0).le_spec(timestamp) ==> forall|t: T| #[trigger]
            timed.upper.le_spec(&t) <==> timestamp.advance_spec(0).le_spec(&t),
        timestamp.advance_spec(0).le_spec(timestamp) ==> forall|t: T|
            !(#[trigger] timed.upper.le_spec(&t)),
        timed.in_bounds(),
{
    let mut builder: OrdKeyBuilder<K, T, R> = OrdKeyBuilder::with_capacity(
        timestamp.copy_time(),
        batch.len(),
    );
    let mut cursor = batch.cursor();
    let ghost entries = batch.layer.entries();
    proof {
        assert(entries.subrange(0, 0) =~= Seq::<(K, R)>::empty());
    }
    while cursor.key_valid()
        invariant
            lawful::<K>(),
            lawful::<T>(),
            faithful_clone::<K>(),
            batch.valid(),
            entries == batch.layer.entries(),
            cursor.wf(),
            cursor.valid,
            cursor.cursor.storage == &batch.layer,
            cursor.cursor.bounds.0 == 0,
            cursor.cursor.bounds.1 == batch.layer.keys@.len(),
            builder.wf(),
            builder.time == *timestamp,
            pushed_up_to(builder.builder.keys@, batch.layer.keys@, cursor.cursor.pos as int),
            forall|k: K, t: T| #[trigger]
                builder.weight(k, t) == (if t == *timestamp {
                    weight_of(entries.subrange(0, cursor.cursor.pos as int), k)
                } else {
                    R::zero_spec()
                }),
        decreases cursor.cursor.bounds.1 - cursor.cursor.pos,
    {
        let ghost at = cursor.cursor.pos as int;
        while cursor.val_valid()
            invariant
                lawful::<K>(),
                lawful::<T>(),
                faithful_clone::<K>(),
                batch.valid(),
                entries == batch.layer.entries(),
                cursor.wf(),
                cursor.cursor.storage == &batch.layer,
                cursor.cursor.pos == at,
                cursor.cursor.bounds.0 == 0,
                cursor.cursor.bounds.1 == batch.layer.keys@.len(),
                at < batch.layer.keys@.len(),
                builder.wf(),
                builder.time == *timestamp,
                pushed_up_to(
                    builder.builder.keys@,
                    batch.layer.keys@,
                    at + (if cursor.valid { 0int } else { 1int }),
                ),
                forall|k: K, t: T| #[trigger]
                    builder.weight(k, t) == (if t == *timestamp {
                        weight_of(
                            entries.subrange(0, at + (if cursor.valid { 0int } else { 1int })),
                            k,
                        )
                    } else {
                        R::zero_spec()
                    }),
            decreases if cursor.valid { 1int } else { 0int },
        {
            let ghost was = builder;
            let key = duplicate(cursor.key());
            let w = cursor.weight();
            proof {
                if at > 0 {
                    assert(entries[at - 1].0 == batch.layer.keys@[at - 1]);
                    assert(entries[at].0 == batch.layer.keys@[at]);
                    assert(key_lt(entries[at - 1].0, entries[at].0));
                }
            }
            builder.push((key, w));
            cursor.step_val();
            proof {
                assert(entries.subrange(0, at + 1) =~= entries.subrange(0, at).push(entries[at]));
                assert forall|k: K, t: T| #[trigger]
                    builder.weight(k, t) == (if t == *timestamp {
                        weight_of(entries.subrange(0, at + 1), k)
                    } else {
                        R::zero_spec()
                    }) by {
                    lemma_weight_push(entries.subrange(0, at), entries[at], k);
                    assert(was.weight(k, t) == (if t == *timestamp {
                        weight_of(entries.subrange(0, at), k)
                    } else {
                        R::zero_spec()
                    }));
                    R::lemma_add_zero(was.weight(k, t));
                }
            }
        }
        cursor.step_key();
    }
    let timed = builder.done();
    proof {
        assert(entries.subrange(0, entries.len() as int) =~= entries);
        assert(timed.weights() =~= stamped(batch.weights(), *timestamp));
    }
    timed
}

/// Appends each batch of its input to a trace, as it is.
pub struct UntimedTraceAppend<T> {
    _phantom: PhantomData<T>,
}

impl<T> UntimedTraceAppend<T> {
    /// The operator, which holds no state.
    pub fn new() -> Self {
        Self { _phantom: PhantomData }
    }

    /// The name of the operator.
    pub fn name(&self) -> (name: &'static str)
        ensures
            name@ == "UntimedTraceAppend"@,
    {
        "UntimedTraceAppend"
    }

    /// The operator keeps no state, so it is always at a fixed point.
    pub fn fixedpoint(&self, _scope: Scope) -> (fixed: bool)
        ensures
            fixed,
    {
        true
    }

    /// The trace is taken by value; the batch is better owned too.
    pub fn input_preference(&self) -> (preference: (OwnershipPreference, OwnershipPreference))
        ensures
            preference == (OwnershipPreference::PreferOwned, OwnershipPreference::PreferOwned),
    {
        (OwnershipPreference::PreferOwned, OwnershipPreference::PreferOwned)
    }
}

impl<B: AddByRef + NumEntries> UntimedTraceAppend<Spine<B>> {
    /// The trace with a copy of `batch` inserted.
    pub fn eval_owned_and_ref(&mut self, trace: Spine<B>, batch: &B) -> (appended: Spine<B>)
        requires
            B::usable(),
            trace.wf(),
            batch.wf(),
        ensures
            appended.wf(),
            appended.model() == B::add_model(trace.model(), batch.model()),
            appended.dirty == (trace.dirty || batch.model() != B::zero_model()),
    {
        let mut trace = trace;
        trace.insert(batch.duplicate());
        trace
    }

    /// The trace with `batch` inserted.
    pub fn eval_owned(&mut self, trace: Spine<B>, batch: B) -> (appended: Spine<B>)
        requires
            B::usable(),
            trace.wf(),
            batch.wf(),
        ensures
            appended.wf(),
            appended.model() == B::add_model(trace.model(), batch.model()),
            appended.dirty == (trace.dirty || batch.model() != B::zero_model()),
    {
        let mut trace = trace;
        trace.insert(batch);
        trace
    }
}

/// Appends each batch of its input to a trace, stamped with the time of
/// the tick.
pub struct TraceAppend<T: Trace, B> {
    time: T::Time,
    _phantom: PhantomData<B>,
}

impl<K: Ord + Clone, TS: Ord + Clone + Timestamp, R: MonoidValue> TraceAppend<
    Spine<OrdKeyBatch<K, TS, R>>,
    OrdZSet<K, R>,
> {
    /// The time that the next batch is stamped with.
    pub closed spec fn time(&self) -> TS {
        self.time
    }

    /// The operator at the start of the clock.
    pub fn new() -> (operator: Self)
        ensures
            operator.time() == TS::clock_start_spec(),
    {
        Self { time: TS::clock_start(), _phantom: PhantomData }
    }

    /// The name of the operator.
    pub fn name(&self) -> (name: &'static str)
        ensures
            name@ == "TraceAppend"@,
    {
        "TraceAppend"
    }

    /// The clock at `scope` ends: the time moves on by one tick of the
    /// clock around it.
    pub fn clock_end(&mut self, scope: Scope)
        requires
            scope < u16::MAX,
        ensures
            final(self).time() == old(self).time().advance_spec((scope + 1) as Scope),
    {
        self.time = self.time.advance(scope + 1);
    }

    /// The operator is always at a fixed point.
    pub fn fixedpoint(&self, _scope: Scope) -> (fixed: bool)
        ensures
            fixed,
    {
        true
    }

    /// The trace is taken by value; the batch is better owned too.
    pub fn input_preference(&self) -> (preference: (OwnershipPreference, OwnershipPreference))
        ensures
            preference == (OwnershipPreference::PreferOwned, OwnershipPreference::PreferOwned),
    {
        (OwnershipPreference::PreferOwned, OwnershipPreference::PreferOwned)
    }

    /// The trace with `batch` inserted at the time of the tick; the time
    /// then moves on by one tick of the innermost clock.
    pub fn eval_owned_and_ref(
        &mut self,
        trace: Spine<OrdKeyBatch<K, TS, R>>,
        batch: &OrdZSet<K, R>,
    ) -> (appended: Spine<OrdKeyBatch<K, TS, R>>)
        requires
            lawful::<K>(),
            lawful::<TS>(),
            faithful_clone::<K>(),
            faithful_clone::<TS>(),
            trace.wf(),
            batch.valid(),
        ensures
            appended.wf(),
            appended.model() == added_timed(
                trace.model(),
                stamped(batch.weights(), old(self).time()),
            ),
            final(self).time() == old(self).time().advance_spec(0),
    {
        let mut trace = trace;
        trace.insert(batch_add_time(batch, &self.time));
        self.time = self.time.advance(0);
        trace
    }

    /// As `eval_owned_and_ref`.
    pub fn eval_owned(&mut self, trace: Spine<OrdKeyBatch<K, TS, R>>, batch: OrdZSet<K, R>) -> (appended:
        Spine<OrdKeyBatch<K, TS, R>>)
        requires
            lawful::<K>(),
            lawful::<TS>(),
            faithful_clone::<K>(),
            faithful_clone::<TS>(),
            trace.wf(),
            batch.valid(),
        ensures
            appended.wf(),
            appended.model() == added_timed(
                trace.model(),
                stamped(batch.weights(), old(self).time()),
            ),
            final(self).time() == old(self).time().advance_spec(0),
    {
        self.eval_owned_and_ref(trace, &batch)
    }
}

/// The delay that holds the trace between two ticks.
///
/// `dirty[scope]` is `true` iff at least one non-empty update was added to
/// the trace since the previous clock cycle at level `scope`.
pub struct Z1Trace<T: Trace> {
    time: T::Time,
    trace: Option<T>,
    dirty: Vec<bool>,
    root_scope: Scope,
    reset_on_clock_start: bool,
}

impl<K: Ord + Clone, TS: Ord + Clone + Timestamp, R: MonoidValue> Z1Trace<
    Spine<OrdKeyBatch<K, TS, R>>,
> {
    /// The time of the tick.
    pub closed spec fn time(&self) -> TS {
        self.time
    }

    /// The trace held, if one is held.
    pub closed spec fn held(&self) -> Option<Spine<OrdKeyBatch<K, TS, R>>> {
        self.trace
    }

    /// The flags, one for each scope up to the root scope.
    pub closed spec fn dirty(&self) -> Seq<bool> {
        self.dirty@
    }

    /// The nesting depth of the circuit.
    pub closed spec fn root_scope(&self) -> Scope {
        self.root_scope
    }

    /// Whether the trace starts anew at each start of the outer clock.
    pub closed spec fn reset_on_clock_start(&self) -> bool {
        self.reset_on_clock_start
    }

    /// There is a flag for each scope, and the trace held is a valid one.
    pub open spec fn wf(&self) -> bool {
        &&& self.dirty().len() == self.root_scope() + 1
        &&& self.held() matches Some(trace) ==> trace.wf()
    }

    /// The operator before the first tick: it holds no trace, and no
    /// scope has seen a batch that was not empty.
    pub fn new(reset_on_clock_start: bool, root_scope: Scope) -> (operator: Self)
        ensures
            operator.wf(),
            operator.time() == TS::clock_start_spec(),
            operator.held().is_none(),
            operator.root_scope() == root_scope,
            operator.reset_on_clock_start() == reset_on_clock_start,
            forall|scope: int| 0 <= scope <= root_scope ==> !(#[trigger] operator.dirty()[scope]),
    {
        let mut dirty: Vec<bool> = Vec::new();
        let mut scope: usize = 0;
        while scope < root_scope as usize + 1
            invariant
                scope <= root_scope + 1,
                dirty@.len() == scope,
                forall|i: int| 0 <= i < scope ==> !(#[trigger] dirty@[i]),
            decreases root_scope + 1 - scope,
        {
            dirty.push(false);
            scope += 1;
        }
        Self { time: TS::clock_start(), trace: None, dirty, root_scope, reset_on_clock_start }
    }

    /// The name of the operator.
    pub fn name(&self) -> (name: &'static str)
        ensures
            name@ == "Z1 (trace)"@,
    {
        "Z1 (trace)"
    }

    /// The clock at `scope` starts: its flag is cleared, and at the start
    /// of the innermost clock an empty trace is made if none is held.
    pub fn clock_start(&mut self, scope: Scope)
        requires
            old(self).wf(),
            scope <= old(self).root_scope(),
        ensures
            final(self).wf(),
            final(self).time() == old(self).time(),
            final(self).root_scope() == old(self).root_scope(),
            final(self).reset_on_clock_start() == old(self).reset_on_clock_start(),
            final(self).dirty() == old(self).dirty().update(scope as int, false),
            scope == 0 && old(self).held().is_none() ==> final(self).held().is_some() && final(self).held().unwrap().batches@.len() == 0 && !final(self).held().unwrap().dirty,
            !(scope == 0 && old(self).held().is_none()) ==> final(self).held() == old(self).held(),
    {
        self.dirty[scope as usize] = false;
        if scope == 0 && self.trace.is_none() {
            self.trace = Some(Spine::new());
        }
    }

    /// The clock at `scope` ends. At the end of the clock below the root,
    /// a trace that is kept across its ticks is taken back to the last
    /// time of the epoch but one tick, which compacts the times before it:
    /// every batch of the trace is receded to that time. At the end of
    /// any other clock, and where the trace starts anew with each clock,
    /// nothing changes.
    pub fn clock_end(&mut self, scope: Scope)
        requires
            old(self).wf(),
            lawful::<K>(),
            lawful::<TS>(),
        ensures
            final(self).wf(),
            final(self).time() == old(self).time(),
            final(self).dirty() == old(self).dirty(),
            final(self).root_scope() == old(self).root_scope(),
            final(self).reset_on_clock_start() == old(self).reset_on_clock_start(),
            old(self).held().is_none() <==> final(self).held().is_none(),
            !(scope + 1 == old(self).root_scope() && !old(self).reset_on_clock_start()) ==> final(self).held() == old(self).held(),
            scope + 1 == old(self).root_scope() && !old(self).reset_on_clock_start() ==> (old(self).held() matches Some(trace) ==> final(self).held().is_some() && final(self).held().unwrap().receded_from(
                &trace,
                old(self).time().epoch_end_spec(old(self).root_scope()).recede_spec(
                    old(self).root_scope(),
                ),
            )),
    {
        if scope as u32 + 1 == self.root_scope as u32 && !self.reset_on_clock_start {
            let frontier = self.time.epoch_end(self.root_scope).recede(self.root_scope);
            let mut held: Option<Spine<OrdKeyBatch<K, TS, R>>> = None;
            core::mem::swap(&mut self.trace, &mut held);
            match held {
                Some(trace) => {
                    let mut trace = trace;
                    trace.recede_to(&frontier);
                    self.trace = Some(trace);
                },
                None => {},
            }
        }
    }

    /// The operator is at a fixed point at `scope` when no batch that was
    /// not empty was added since the clock at `scope` last started.
    pub fn fixedpoint(&self, scope: Scope) -> (fixed: bool)
        requires
            self.wf(),
            scope <= self.root_scope(),
        ensures
            fixed == !self.dirty()[scope as int],
    {
        !self.dirty[scope as usize]
    }

    /// Gives out the trace held, with its flag cleared.
    pub fn get_output(&mut self) -> (trace: Spine<OrdKeyBatch<K, TS, R>>)
        requires
            old(self).wf(),
            old(self).held().is_some(),
        ensures
            final(self).wf(),
            final(self).held().is_none(),
            final(self).time() == old(self).time(),
            final(self).dirty() == old(self).dirty(),
            final(self).root_scope() == old(self).root_scope(),
            final(self).reset_on_clock_start() == old(self).reset_on_clock_start(),
            trace.batches == old(self).held().unwrap().batches,
            !trace.dirty,
            trace.wf(),
    {
        let mut held: Option<Spine<OrdKeyBatch<K, TS, R>>> = None;
        core::mem::swap(&mut self.trace, &mut held);
        let mut result = held.unwrap();
        result.clear_dirty_flag();
        result
    }

    /// The last output of the clock: the trace held where the trace
    /// starts anew at each clock, an empty trace otherwise.
    pub fn get_final_output(&mut self) -> (trace: Spine<OrdKeyBatch<K, TS, R>>)
        requires
            old(self).wf(),
            old(self).reset_on_clock_start() ==> old(self).held().is_some(),
        ensures
            final(self).wf(),
            trace.wf(),
            !trace.dirty,
            old(self).reset_on_clock_start() ==> final(self).held().is_none() && trace.batches
                == old(self).held().unwrap().batches,
            !old(self).reset_on_clock_start() ==> *final(self) == *old(self)
                && trace.batches@.len() == 0,
    {
        if self.reset_on_clock_start {
            self.get_output()
        } else {
            Spine::new()
        }
    }

    /// Takes the trace of the tick: the time moves on by one tick of the
    /// innermost clock, and where the trace is dirty, so is every scope.
    pub fn eval_strict_owned(&mut self, i: Spine<OrdKeyBatch<K, TS, R>>)
        requires
            old(self).wf(),
            i.wf(),
        ensures
            final(self).wf(),
            final(self).time() == old(self).time().advance_spec(0),
            final(self).held() == Some(i),
            final(self).root_scope() == old(self).root_scope(),
            final(self).reset_on_clock_start() == old(self).reset_on_clock_start(),
            final(self).dirty().len() == old(self).dirty().len(),
            final(self).dirty()[0] == i.dirty,
            forall|scope: int|
                1 <= scope < old(self).dirty().len() ==> #[trigger] final(self).dirty()[scope] == (
                old(self).dirty()[scope] || i.dirty),
    {
        self.time = self.time.advance(0);
        let dirty = i.dirty();
        self.trace = Some(i);
        self.dirty[0] = dirty;
        let n = self.dirty.len();
        let mut scope: usize = 1;
        while scope < n
            invariant
                n == self.dirty@.len(),
                n == old(self).dirty@.len(),
                1 <= scope <= n,
                i.wf(),
                self.time == old(self).time.advance_spec(0),
                self.trace == Some(i),
                self.root_scope == old(self).root_scope,
                self.reset_on_clock_start == old(self).reset_on_clock_start,
                self.dirty@[0] == dirty,
                forall|s: int|
                    1 <= s < scope ==> #[trigger] self.dirty@[s] == (old(self).dirty@[s] || dirty),
                forall|s: int| scope <= s < n ==> #[trigger] self.dirty@[s] == old(self).dirty@[s],
            decreases n - scope,
        {
            let was = self.dirty[scope];
            self.dirty[scope] = was || dirty;
            scope += 1;
        }
    }

    /// Owning the trace saves a copy.
    pub fn input_preference(&self) -> (preference: OwnershipPreference)
        ensures
            preference == OwnershipPreference::PreferOwned,
    {
        OwnershipPreference::PreferOwned
    }
}

/// What `trace` and `integrate_trace` build on the stream at `origin`,
/// seen in the circuit `after` they ran on the circuit `before`: the
/// delay that holds the trace, its export, and the operator that appends
/// to the trace, which closes the loop through the delay.
pub open spec fn trace_built(
    before: &Circuit,
    after: &Circuit,
    origin: NodeId,
    key: CacheKey,
    append: NodeKind,
    reset_on_clock_start: bool,
    trace: NodeId,
) -> bool {
    let local = before.nodes@.len() as usize;
    let export = (local + 1) as usize;
    &&& trace == local + 2
    &&& after.extends(before, 3)
    &&& after.node_is(
        local,
        NodeKind::Z1Trace { reset_on_clock_start },
        seq![(trace, OwnershipPreference::StronglyPreferOwned)],
    )
    &&& after.node_is(export, NodeKind::Export, seq![(local, OwnershipPreference::Indifferent)])
    &&& after.node_is(
        trace,
        append,
        seq![
            (local, OwnershipPreference::StronglyPreferOwned),
            (before.sharded_version(origin), OwnershipPreference::PreferOwned),
        ],
    )
    &&& after.cached(key) == Some(trace)
    &&& after.cached(CacheKey::DelayedTraceId(trace)) == Some(local)
    &&& after.cached(CacheKey::ExportId(trace)) == Some(export)
    &&& before.cached(CacheKey::ShardId(origin, ShardingPolicy)).is_some() ==> {
        &&& after.cached(CacheKey::ShardId(local, ShardingPolicy)) == Some(local)
        &&& after.cached(CacheKey::ShardId(trace, ShardingPolicy)) == Some(trace)
    }
    &&& forall|other: CacheKey|
        other != key && other != CacheKey::DelayedTraceId(trace) && other != CacheKey::ExportId(
            trace,
        ) && other != CacheKey::ShardId(local, ShardingPolicy) && other != CacheKey::ShardId(
            trace,
            ShardingPolicy,
        ) ==> #[trigger] after.cached(other) == before.cached(other)
}

impl<B> Stream<B> {
    /// Builds the loop of a trace on this stream, unless it is remembered
    /// under `key`.
    fn build_trace<T>(
        &self,
        circuit: &mut Circuit,
        key: CacheKey,
        append: NodeKind,
        reset_on_clock_start: bool,
    ) -> (trace: Stream<T>)
        requires
            old(circuit).wf(),
            self.node < old(circuit).nodes@.len(),
            key == CacheKey::TraceId(self.node) || key == CacheKey::IntegrateTraceId(self.node),
        ensures
            final(circuit).wf(),
            final(circuit).same_setting(old(circuit)),
            trace.node < final(circuit).nodes@.len(),
            old(circuit).cached(key) matches Some(node) ==> trace.node == node && *final(circuit)
                == *old(circuit),
            old(circuit).cached(key).is_none() ==> trace_built(
                old(circuit),
                final(circuit),
                self.node,
                key,
                append,
                reset_on_clock_start,
                trace.node,
            ),
    {
        match circuit.cache_get(key) {
            Some(node) => Stream::at(node),
            None => {
                let local = circuit.add_node(
                    NodeKind::Z1Trace { reset_on_clock_start },
                    Vec::new(),
                );
                let export = circuit.add_unary(
                    NodeKind::Export,
                    local,
                    OwnershipPreference::Indifferent,
                );
                let input = self.try_sharded_version(circuit);
                let mut inputs: Vec<(NodeId, OwnershipPreference)> = Vec::new();
                inputs.push((local, OwnershipPreference::StronglyPreferOwned));
                inputs.push((input.node, OwnershipPreference::PreferOwned));
                proof {
                    assert(inputs@ =~= seq![
                        (local, OwnershipPreference::StronglyPreferOwned),
                        (input.node, OwnershipPreference::PreferOwned),
                    ]);
                }
                let trace = circuit.add_node(append, inputs);
                let ghost built = *circuit;
                let local_stream: Stream<T> = Stream::at(local);
                let trace_stream: Stream<T> = Stream::at(trace);
                if self.has_sharded_version(circuit) {
                    local_stream.mark_sharded(circuit);
                    trace_stream.mark_sharded(circuit);
                }
                let ghost marked = *circuit;
                circuit.connect(local, trace, OwnershipPreference::StronglyPreferOwned);
                let ghost linked = *circuit;
                circuit.cache_insert(CacheKey::DelayedTraceId(trace), local);
                let ghost first = *circuit;
                circuit.cache_insert(CacheKey::ExportId(trace), export);
                let ghost second = *circuit;
                circuit.cache_insert(key, trace);
                proof {
                    let delayed = CacheKey::DelayedTraceId(trace);
                    let exported = CacheKey::ExportId(trace);
                    let shard_local = CacheKey::ShardId(local, ShardingPolicy);
                    let shard_trace = CacheKey::ShardId(trace, ShardingPolicy);
                    assert(linked.cache@ == marked.cache@);
                    assert(circuit.cached(delayed) == second.cached(delayed));
                    assert(second.cached(delayed) == first.cached(delayed));
                    assert(circuit.cached(exported) == second.cached(exported));
                    assert forall|other: CacheKey|
                        other != key && other != delayed && other != exported implies #[trigger] circuit.cached(
                        other,
                    ) == marked.cached(other) by {
                        assert(circuit.cached(other) == second.cached(other));
                        assert(second.cached(other) == first.cached(other));
                        assert(first.cached(other) == linked.cached(other));
                    }
                    assert(circuit.cached(shard_local) == marked.cached(shard_local));
                    assert(circuit.cached(shard_trace) == marked.cached(shard_trace));
                    assert(built.cache@ == old(circuit).cache@);
                    assert(circuit.nodes@[local as int].inputs@ =~= seq![
                        (trace, OwnershipPreference::StronglyPreferOwned),
                    ]);
                }
                trace_stream
            },
        }
    }

    /// Record batches in `self` in a trace.
    ///
    /// This operator labels each untimed batch in the stream with the current
    /// timestamp and adds it to a trace.  Asked for twice, it is one
    /// operator. The delayed trace is remembered with it, for
    /// `delay_trace`.
    pub fn trace<T>(&self, circuit: &mut Circuit) -> (trace: Stream<T>)
        requires
            old(circuit).wf(),
            self.node < old(circuit).nodes@.len(),
        ensures
            final(circuit).wf(),
            final(circuit).same_setting(old(circuit)),
            trace.node < final(circuit).nodes@.len(),
            old(circuit).cached(CacheKey::TraceId(self.node)) matches Some(node) ==> trace.node
                == node && *final(circuit) == *old(circuit),
            old(circuit).cached(CacheKey::TraceId(self.node)).is_none() ==> trace_built(
                old(circuit),
                final(circuit),
                self.node,
                CacheKey::TraceId(self.node),
                NodeKind::TraceAppend,
                false,
                trace.node,
            ),
    {
        self.build_trace(
            circuit,
            CacheKey::TraceId(self.origin_node_id()),
            NodeKind::TraceAppend,
            false,
        )
    }

    /// The integral of the stream, kept as a trace: each batch is added
    /// to the trace as it is, and the trace starts anew with each clock.
    pub fn integrate_trace<T>(&self, circuit: &mut Circuit) -> (trace: Stream<T>)
        requires
            old(circuit).wf(),
            self.node < old(circuit).nodes@.len(),
        ensures
            final(circuit).wf(),
            final(circuit).same_setting(old(circuit)),
            trace.node < final(circuit).nodes@.len(),
            old(circuit).cached(CacheKey::IntegrateTraceId(self.node)) matches Some(node)
                ==> trace.node == node && *final(circuit) == *old(circuit),
            old(circuit).cached(CacheKey::IntegrateTraceId(self.node)).is_none() ==> trace_built(
                old(circuit),
                final(circuit),
                self.node,
                CacheKey::IntegrateTraceId(self.node),
                NodeKind::UntimedTraceAppend,
                true,
                trace.node,
            ),
    {
        self.build_trace(
            circuit,
            CacheKey::IntegrateTraceId(self.origin_node_id()),
            NodeKind::UntimedTraceAppend,
            true,
        )
    }

    /// The trace of this stream one tick late: the delay that was built
    /// with the trace. The stream is a trace made by `trace` or
    /// `integrate_trace`.
    pub fn delay_trace(&self, circuit: &Circuit) -> (delayed: Stream<B>)
        requires
            circuit.cached(CacheKey::DelayedTraceId(self.node)).is_some(),
        ensures
            Some(delayed.node) == circuit.cached(CacheKey::DelayedTraceId(self.node)),
    {
        // The delayed trace is created together with the trace itself.
        let found = circuit.cache_get(CacheKey::DelayedTraceId(self.origin_node_id()));
        Stream::at(found.unwrap())
    }
}

} // verus!
