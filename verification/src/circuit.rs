//! Circuits of operators: what an operator tells the scheduler, and the
//! graph that streams are built in.

use vstd::prelude::*;

verus! {

/// How much an operator gains from owning an input rather than borrowing
/// it. The scheduler hands an input over by value where the preference is
/// strong enough and nobody else reads it.
#[derive(Debug, Clone, Copy, PartialEq, Eq, Structural)]
pub enum OwnershipPreference {
    /// The operator gains nothing from owning the input.
    Indifferent,
    /// The operator saves work if it owns the input.
    PreferOwned,
    /// The operator cannot work well on a borrowed input.
    StronglyPreferOwned,
}

impl OwnershipPreference {
    /// The preference as a number: a stronger preference is a larger one.
    pub open spec fn rank_spec(self) -> nat {
        match self {
            OwnershipPreference::Indifferent => 0,
            OwnershipPreference::PreferOwned => 50,
            OwnershipPreference::StronglyPreferOwned => 100,
        }
    }

    /// The preference as a number: a stronger preference is a larger one.
    pub fn rank(self) -> (rank: usize)
        ensures
            rank == self.rank_spec(),
    {
        match self {
            OwnershipPreference::Indifferent => 0,
            OwnershipPreference::PreferOwned => 50,
            OwnershipPreference::StronglyPreferOwned => 100,
        }
    }
}

/// The place of an operator in its circuit.
pub type NodeId = usize;

/// An attempt to future-proof the design for when several sharding
/// disciplines are supported: today there is one, sharding by the hash of
/// the key.
#[derive(Debug, Clone, Copy, PartialEq, Eq, Hash, Structural)]
pub struct ShardingPolicy;

/// What an operator instance is remembered under, so that asking for the
/// same operator on the same stream twice yields one node.
#[derive(Debug, Clone, Copy, PartialEq, Eq, Structural)]
pub enum CacheKey {
    /// The trace of the stream that starts at the node.
    TraceId(NodeId),
    /// The delayed trace that belongs to the trace at the node.
    DelayedTraceId(NodeId),
    /// The integral, kept as a trace, of the stream that starts at the node.
    IntegrateTraceId(NodeId),
    /// The stream that starts at the node, delayed by the nested clock.
    NestedDelayedId(NodeId),
    /// The stream that starts at the node, delayed by one tick.
    DelayedId(NodeId),
    /// The sharded version of the stream that starts at the node.
    ShardId(NodeId, ShardingPolicy),
    /// The stream that starts at the node, gathered at a worker.
    GatherId(NodeId, usize),
    /// The export, to the parent circuit, of the stream at the node.
    ExportId(NodeId),
}

/// What a worker has at the receiving end of a gathering.
#[derive(Debug, Clone, Copy, PartialEq, Eq, Structural)]
pub enum GatherEnd {
    /// The worker is the receiver: it takes the batches of all workers.
    Receiving,
    /// The worker is not the receiver: it sees an empty trace at every
    /// tick.
    Empty,
}

/// The operators that a circuit is built of.
#[derive(Debug, Clone, Copy, PartialEq, Eq, Structural)]
pub enum NodeKind {
    /// A source that the embedder feeds.
    Source,
    /// Negation.
    UnaryMinus,
    /// The sum of all inputs.
    Sum,
    /// Delay by one tick.
    Z1,
    /// Delay by one tick of the outer clock, on streams of streams.
    Z1Nested,
    /// The delay that holds a trace, which is either reset at the start
    /// of each clock or receded at its end.
    Z1Trace { reset_on_clock_start: bool },
    /// Appends each batch, stamped with the current time, to a trace.
    TraceAppend,
    /// Appends each batch as it is to a trace.
    UntimedTraceAppend,
    /// Sends each worker the part of the input whose keys hash to it.
    ShardExchange,
    /// Sends the input to one worker, which receives the inputs of all, on
    /// the channel with the given number; `end` is what this worker has
    /// at the receiving end.
    GatherExchange { receiver: usize, channel: usize, end: GatherEnd },
    /// Consolidates a trace into one batch.
    Consolidate,
    /// The export of a stream to the parent circuit.
    Export,
}

/// An operator with the nodes that it reads.
#[derive(Debug, Clone)]
pub struct Node {
    pub kind: NodeKind,
    pub inputs: Vec<(NodeId, OwnershipPreference)>,
}

/// The value that `entries` holds for `key`: that of the first entry with
/// the key.
pub open spec fn lookup(entries: Seq<(CacheKey, NodeId)>, key: CacheKey) -> Option<NodeId>
    decreases entries.len(),
{
    if entries.len() == 0 {
        None
    } else if entries[0].0 == key {
        Some(entries[0].1)
    } else {
        lookup(entries.drop_first(), key)
    }
}

/// A circuit under construction on one worker: its operators, and the
/// cache of operator instances.
#[derive(Debug, Clone)]
pub struct Circuit {
    pub nodes: Vec<Node>,
    pub cache: Vec<(CacheKey, NodeId)>,
    /// The number of workers, each of which builds this circuit.
    pub workers: usize,
    /// The worker that builds this copy.
    pub worker_index: usize,
    /// The nesting depth of the circuit.
    pub root_scope: u16,
    /// The number of exchanges created so far: the same on every worker,
    /// so that the workers meet on the same channel.
    pub sequence: usize,
}

/// A stream of values of type `D`: the output of a node of a circuit.
pub struct Stream<D> {
    pub node: NodeId,
    pub phantom: core::marker::PhantomData<D>,
}

impl<D> Stream<D> {
    /// The stream that starts at `node`.
    pub fn at(node: NodeId) -> (stream: Self)
        ensures
            stream.node == node,
    {
        Stream { node, phantom: core::marker::PhantomData }
    }

    /// The node that the stream starts at.
    pub fn origin_node_id(&self) -> (node: NodeId)
        ensures
            node == self.node,
    {
        self.node
    }

    /// The same stream once more.
    pub fn copy(&self) -> (stream: Self)
        ensures
            stream.node == self.node,
    {
        Stream { node: self.node, phantom: core::marker::PhantomData }
    }
}

impl Circuit {
    /// The node that the cache holds for `key`.
    pub open spec fn cached(&self, key: CacheKey) -> Option<NodeId> {
        lookup(self.cache@, key)
    }

    /// There is a worker to build the circuit, every input of a node is a
    /// node, and every node in the cache is a node.
    pub open spec fn wf(&self) -> bool {
        &&& self.workers >= 1
        &&& self.worker_index < self.workers
        &&& forall|i: int, j: int|
            0 <= i < self.nodes@.len() && 0 <= j < self.nodes@[i].inputs@.len() ==> (
            #[trigger] self.nodes@[i].inputs@[j]).0 < self.nodes@.len()
        &&& forall|i: int| 0 <= i < self.cache@.len() ==> (#[trigger] self.cache@[i]).1 < self.nodes@.len()
    }

    /// A circuit without operators, built by worker `worker_index` of
    /// `workers`.
    pub fn new(workers: usize, worker_index: usize) -> (circuit: Self)
        requires
            worker_index < workers,
        ensures
            circuit.wf(),
            circuit.nodes@.len() == 0,
            circuit.workers == workers,
            circuit.worker_index == worker_index,
            forall|key: CacheKey| circuit.cached(key).is_none(),
    {
        Circuit {
            nodes: Vec::new(),
            cache: Vec::new(),
            workers,
            worker_index,
            root_scope: 0,
            sequence: 0,
        }
    }

    /// The number of workers.
    pub fn num_workers(&self) -> (workers: usize)
        ensures
            workers == self.workers,
    {
        self.workers
    }

    /// The nesting depth of the circuit.
    pub fn root_scope(&self) -> (scope: u16)
        ensures
            scope == self.root_scope,
    {
        self.root_scope
    }

    /// Adds an operator that reads `inputs` and returns its node.
    pub fn add_node(&mut self, kind: NodeKind, inputs: Vec<(NodeId, OwnershipPreference)>) -> (node:
        NodeId)
        requires
            old(self).wf(),
            forall|j: int| 0 <= j < inputs@.len() ==> (#[trigger] inputs@[j]).0 < old(self).nodes@.len(),
        ensures
            final(self).wf(),
            node == old(self).nodes@.len(),
            final(self).nodes@.len() == old(self).nodes@.len() + 1,
            final(self).nodes@[node as int].kind == kind,
            final(self).nodes@[node as int].inputs@ == inputs@,
            forall|i: int| 0 <= i < old(self).nodes@.len() ==> final(self).nodes@[i] == old(self).nodes@[i],
            final(self).cache@ == old(self).cache@,
            final(self).workers == old(self).workers,
            final(self).worker_index == old(self).worker_index,
            final(self).root_scope == old(self).root_scope,
            final(self).sequence == old(self).sequence,
    {
        let node = self.nodes.len();
        self.nodes.push(Node { kind, inputs });
        node
    }

    /// Adds a source and returns its stream.
    pub fn add_source<D>(&mut self) -> (stream: Stream<D>)
        requires
            old(self).wf(),
        ensures
            final(self).wf(),
            stream.node == old(self).nodes@.len(),
            final(self).nodes@.len() == old(self).nodes@.len() + 1,
            final(self).nodes@[stream.node as int].kind == NodeKind::Source,
            final(self).nodes@[stream.node as int].inputs@.len() == 0,
            forall|i: int| 0 <= i < old(self).nodes@.len() ==> final(self).nodes@[i] == old(self).nodes@[i],
            final(self).cache@ == old(self).cache@,
            final(self).workers == old(self).workers,
            final(self).worker_index == old(self).worker_index,
            final(self).root_scope == old(self).root_scope,
            final(self).sequence == old(self).sequence,
    {
        let node = self.add_node(NodeKind::Source, Vec::new());
        Stream::at(node)
    }

    /// Makes `input` an input of `node`: closes a feedback loop.
    pub fn connect(&mut self, node: NodeId, input: NodeId, preference: OwnershipPreference)
        requires
            old(self).wf(),
            node < old(self).nodes@.len(),
            input < old(self).nodes@.len(),
        ensures
            final(self).wf(),
            final(self).nodes@.len() == old(self).nodes@.len(),
            final(self).nodes@[node as int].kind == old(self).nodes@[node as int].kind,
            final(self).nodes@[node as int].inputs@ == old(self).nodes@[node as int].inputs@.push(
                (input, preference),
            ),
            forall|i: int|
                0 <= i < old(self).nodes@.len() && i != node ==> final(self).nodes@[i] == old(self).nodes@[i],
            final(self).cache@ == old(self).cache@,
            final(self).workers == old(self).workers,
            final(self).worker_index == old(self).worker_index,
            final(self).root_scope == old(self).root_scope,
            final(self).sequence == old(self).sequence,
    {
        self.nodes[node].inputs.push((input, preference));
    }

    /// The node that the cache holds for `key`.
    pub fn cache_get(&self, key: CacheKey) -> (found: Option<NodeId>)
        ensures
            found == self.cached(key),
            self.wf() ==> (found matches Some(node) ==> node < self.nodes@.len()),
    {
        let n = self.cache.len();
        let mut i: usize = 0;
        proof {
            assert(self.cache@.subrange(0, n as int) =~= self.cache@);
        }
        while i < n
            invariant
                n == self.cache@.len(),
                i <= n,
                lookup(self.cache@, key) == lookup(self.cache@.subrange(i as int, n as int), key),
            decreases n - i,
        {
            let ghost rest = self.cache@.subrange(i as int, n as int);
            proof {
                assert(rest[0] == self.cache@[i as int]);
                assert(rest.drop_first() =~= self.cache@.subrange(i + 1, n as int));
            }
            if self.cache[i].0 == key {
                return Some(self.cache[i].1);
            }
            i += 1;
        }
        proof {
            assert(self.cache@.subrange(n as int, n as int) =~= Seq::<(CacheKey, NodeId)>::empty());
        }
        None
    }

    /// Whether the cache holds a node for `key`.
    pub fn cache_contains(&self, key: CacheKey) -> (held: bool)
        ensures
            held == self.cached(key).is_some(),
    {
        self.cache_get(key).is_some()
    }

    /// Stores `node` under `key`, in place of what was stored under it.
    pub fn cache_insert(&mut self, key: CacheKey, node: NodeId)
        requires
            old(self).wf(),
            node < old(self).nodes@.len(),
        ensures
            final(self).wf(),
            final(self).nodes@ == old(self).nodes@,
            final(self).workers == old(self).workers,
            final(self).worker_index == old(self).worker_index,
            final(self).root_scope == old(self).root_scope,
            final(self).sequence == old(self).sequence,
            forall|other: CacheKey| #[trigger]
                final(self).cached(other) == (if other == key {
                    Some(node)
                } else {
                    old(self).cached(other)
                }),
    {
        let ghost before = self.cache@;
        self.cache.insert(0, (key, node));
        proof {
            let now = self.cache@;
            assert(now[0] == (key, node));
            assert(now.drop_first() =~= before);
            assert forall|i: int| 0 <= i < now.len() implies (#[trigger] now[i]).1
                < self.nodes@.len() by {
                if i > 0 {
                    assert(now[i] == before[i - 1]);
                }
            }
        }
    }
}

impl Circuit {
    /// The sharded version of the stream at `node`, where one is known:
    /// the stream itself otherwise.
    pub open spec fn sharded_version(&self, node: NodeId) -> NodeId {
        match self.cached(CacheKey::ShardId(node, ShardingPolicy)) {
            Some(sharded) => sharded,
            None => node,
        }
    }

    /// The two circuits are built by the same worker of the same number of
    /// workers, at the same depth, and have created as many exchanges.
    pub open spec fn same_setting(&self, other: &Circuit) -> bool {
        &&& self.workers == other.workers
        &&& self.worker_index == other.worker_index
        &&& self.root_scope == other.root_scope
        &&& self.sequence == other.sequence
    }

    /// `self` has the nodes of `earlier`, unchanged, and `added` more.
    pub open spec fn extends(&self, earlier: &Circuit, added: nat) -> bool {
        &&& self.nodes@.len() == earlier.nodes@.len() + added
        &&& forall|i: int| 0 <= i < earlier.nodes@.len() ==> self.nodes@[i] == earlier.nodes@[i]
    }

    /// The node at `node` is of kind `kind` and reads `inputs`.
    pub open spec fn node_is(
        &self,
        node: NodeId,
        kind: NodeKind,
        inputs: Seq<(NodeId, OwnershipPreference)>,
    ) -> bool {
        &&& node < self.nodes@.len()
        &&& self.nodes@[node as int].kind == kind
        &&& self.nodes@[node as int].inputs@ == inputs
    }

    /// The cache of `self` is that of `earlier` with `node` stored under
    /// `key`.
    pub open spec fn caches(&self, earlier: &Circuit, key: CacheKey, node: NodeId) -> bool {
        forall|other: CacheKey| #[trigger]
            self.cached(other) == (if other == key {
                Some(node)
            } else {
                earlier.cached(other)
            })
    }

    /// Adds an operator with one input and returns its node.
    pub fn add_unary(&mut self, kind: NodeKind, input: NodeId, preference: OwnershipPreference) -> (node:
        NodeId)
        requires
            old(self).wf(),
            input < old(self).nodes@.len(),
        ensures
            final(self).wf(),
            node == old(self).nodes@.len(),
            final(self).extends(old(self), 1),
            final(self).node_is(node, kind, seq![(input, preference)]),
            final(self).cache@ == old(self).cache@,
            final(self).same_setting(old(self)),
    {
        let mut inputs: Vec<(NodeId, OwnershipPreference)> = Vec::new();
        inputs.push((input, preference));
        proof {
            assert(inputs@ =~= seq![(input, preference)]);
        }
        self.add_node(kind, inputs)
    }

    /// The next number in the sequence of exchanges.
    pub fn sequence_next(&mut self) -> (number: usize)
        requires
            old(self).sequence < usize::MAX,
        ensures
            number == old(self).sequence,
            final(self).sequence == old(self).sequence + 1,
            final(self).nodes@ == old(self).nodes@,
            final(self).cache@ == old(self).cache@,
            final(self).workers == old(self).workers,
            final(self).worker_index == old(self).worker_index,
            final(self).root_scope == old(self).root_scope,
            old(self).wf() ==> final(self).wf(),
    {
        let number = self.sequence;
        self.sequence += 1;
        number
    }
}

/// How many of `inputs` read `source` with a strong preference for owning
/// what they read.
pub open spec fn strong_reads(inputs: Seq<(NodeId, OwnershipPreference)>, source: NodeId) -> nat
    decreases inputs.len(),
{
    if inputs.len() == 0 {
        0
    } else {
        strong_reads(inputs.drop_last(), source) + if inputs.last() == (
            source,
            OwnershipPreference::StronglyPreferOwned,
        ) {
            1nat
        } else {
            0nat
        }
    }
}

/// How many inputs of `nodes` read `source` with a strong preference for
/// owning what they read.
pub open spec fn strong_readers(nodes: Seq<Node>, source: NodeId) -> nat
    decreases nodes.len(),
{
    if nodes.len() == 0 {
        0
    } else {
        strong_readers(nodes.drop_last(), source) + strong_reads(nodes.last().inputs@, source)
    }
}

/// A count as far as the scheduler tells counts apart: none, one, more.
pub open spec fn up_to_two(count: nat) -> nat {
    if count < 2 {
        count
    } else {
        2
    }
}

impl Circuit {
    /// No stream has two readers that strongly prefer to own it: a stream
    /// can be handed over by value once only.
    pub open spec fn settled(&self) -> bool {
        forall|source: NodeId|
            source < self.nodes@.len() ==> #[trigger] strong_readers(self.nodes@, source) < 2
    }

    /// How many readers strongly prefer to own the stream at `source`:
    /// none, one, or two for more than one.
    pub fn strong_demand(&self, source: NodeId) -> (demand: usize)
        ensures
            demand == up_to_two(strong_readers(self.nodes@, source)),
    {
        let mut demand: usize = 0;
        let count = self.nodes.len();
        let mut i: usize = 0;
        proof {
            assert(self.nodes@.subrange(0, 0) =~= Seq::<Node>::empty());
        }
        while i < count
            invariant
                count == self.nodes@.len(),
                i <= count,
                demand == up_to_two(strong_readers(self.nodes@.subrange(0, i as int), source)),
            decreases count - i,
        {
            let ghost before = strong_readers(self.nodes@.subrange(0, i as int), source);
            let inputs = &self.nodes[i].inputs;
            let length = inputs.len();
            let mut j: usize = 0;
            proof {
                assert(inputs@.subrange(0, 0) =~= Seq::<(NodeId, OwnershipPreference)>::empty());
            }
            while j < length
                invariant
                    length == inputs@.len(),
                    j <= length,
                    demand == up_to_two(before + strong_reads(inputs@.subrange(0, j as int), source)),
                decreases length - j,
            {
                proof {
                    let seen = inputs@.subrange(0, j + 1);
                    assert(seen.drop_last() =~= inputs@.subrange(0, j as int));
                    assert(seen.last() == inputs@[j as int]);
                }
                if inputs[j].0 == source && inputs[j].1 == OwnershipPreference::StronglyPreferOwned
                    && demand < 2 {
                    demand += 1;
                }
                j += 1;
            }
            proof {
                assert(inputs@.subrange(0, length as int) =~= inputs@);
                let seen = self.nodes@.subrange(0, i + 1);
                assert(seen.drop_last() =~= self.nodes@.subrange(0, i as int));
                assert(seen.last() == self.nodes@[i as int]);
            }
            i += 1;
        }
        proof {
            assert(self.nodes@.subrange(0, count as int) =~= self.nodes@);
        }
        demand
    }

    /// Whether the scheduler owes input `input` of the node `reader` by
    /// value: the node strongly prefers to own the input, and no other
    /// input in the circuit asks as much of the same stream.
    pub fn owes_ownership(&self, reader: NodeId, input: usize) -> (owed: bool)
        requires
            reader < self.nodes@.len(),
            input < self.nodes@[reader as int].inputs@.len(),
        ensures
            owed == (self.nodes@[reader as int].inputs@[input as int].1
                == OwnershipPreference::StronglyPreferOwned && strong_readers(
                self.nodes@,
                self.nodes@[reader as int].inputs@[input as int].0,
            ) == 1),
    {
        let read = self.nodes[reader].inputs[input];
        read.1 == OwnershipPreference::StronglyPreferOwned && self.strong_demand(read.0) == 1
    }

    /// The first stream that more than one reader strongly prefers to own.
    /// A circuit with such a stream is not to be run: it is settled if and
    /// only if there is none.
    pub fn preference_conflict(&self) -> (conflict: Option<NodeId>)
        ensures
            conflict.is_none() == self.settled(),
            conflict matches Some(source) ==> {
                &&& source < self.nodes@.len()
                &&& strong_readers(self.nodes@, source) >= 2
                &&& forall|earlier: NodeId|
                    earlier < source ==> #[trigger] strong_readers(self.nodes@, earlier) < 2
            },
    {
        let count = self.nodes.len();
        let mut source: usize = 0;
        while source < count
            invariant
                count == self.nodes@.len(),
                source <= count,
                forall|earlier: NodeId|
                    earlier < source ==> #[trigger] strong_readers(self.nodes@, earlier) < 2,
            decreases count - source,
        {
            if self.strong_demand(source) == 2 {
                return Some(source);
            }
            source += 1;
        }
        None
    }
}

} // verus!
