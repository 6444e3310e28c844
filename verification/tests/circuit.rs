use dbsp::circuit::{CacheKey, Circuit, GatherEnd, NodeKind, OwnershipPreference, ShardingPolicy, Stream};
use dbsp::operator::communication::shard::sharding_policy;
use dbsp::operator::z1::{DelayedFeedback, DelayedNestedFeedback};

fn two_workers() -> (Circuit, Stream<i32>) {
    let mut circuit = Circuit::new(2, 0);
    let source = circuit.add_source();
    (circuit, source)
}

#[test]
fn shard_is_identity_with_one_worker() {
    let mut circuit = Circuit::new(1, 0);
    let source: Stream<i32> = circuit.add_source();
    let sharded = source.shard(&mut circuit);
    assert_eq!(sharded.node, source.node);
    assert_eq!(circuit.nodes.len(), 1);
    assert!(!source.has_sharded_version(&circuit));
    assert!(source.shard_generic(&mut circuit).is_none());
}

#[test]
fn shard_is_built_once() {
    let (mut circuit, source) = two_workers();
    let sharded = source.shard(&mut circuit);
    assert_eq!(circuit.nodes.len(), 3);
    assert_eq!(sharded.node, 2);
    assert_eq!(circuit.nodes[1].kind, NodeKind::ShardExchange);
    assert_eq!(circuit.nodes[1].inputs, vec![(0, OwnershipPreference::PreferOwned)]);
    assert_eq!(circuit.nodes[2].kind, NodeKind::Consolidate);
    assert_eq!(circuit.nodes[2].inputs, vec![(1, OwnershipPreference::PreferOwned)]);

    // a second call returns the same node, and so does sharding the sharded stream
    assert_eq!(source.shard(&mut circuit).node, 2);
    assert_eq!(sharded.shard(&mut circuit).node, 2);
    assert_eq!(circuit.nodes.len(), 3);
    assert!(source.has_sharded_version(&circuit));
    assert_eq!(source.try_sharded_version(&circuit).node, 2);
    assert_eq!(sharding_policy(&circuit), ShardingPolicy);
}

#[test]
fn marked_stream_is_not_sharded_again() {
    let (mut circuit, source) = two_workers();
    assert!(!source.has_sharded_version(&circuit));
    assert_eq!(source.try_sharded_version(&circuit).node, source.node);
    let marked = source.mark_sharded(&mut circuit);
    assert_eq!(marked.node, source.node);
    assert!(source.has_sharded_version(&circuit));
    assert_eq!(source.shard(&mut circuit).node, source.node);
    assert_eq!(circuit.nodes.len(), 1);
}

#[test]
fn mark_sharded_if_follows_the_input() {
    let (mut circuit, source) = two_workers();
    let other: Stream<i32> = circuit.add_source();
    other.mark_sharded_if(&mut circuit, &source);
    assert!(!other.has_sharded_version(&circuit));
    source.mark_sharded(&mut circuit);
    other.mark_sharded_if(&mut circuit, &source);
    assert!(other.has_sharded_version(&circuit));
    assert_eq!(other.try_sharded_version(&circuit).node, other.node);
}

#[test]
fn neg_reads_the_sharded_version() {
    let (mut circuit, source) = two_workers();
    let plain = source.neg(&mut circuit);
    assert_eq!(circuit.nodes[plain.node].kind, NodeKind::UnaryMinus);
    assert_eq!(
        circuit.nodes[plain.node].inputs,
        vec![(source.node, OwnershipPreference::PreferOwned)]
    );
    assert!(!plain.has_sharded_version(&circuit));

    let sharded = source.shard(&mut circuit);
    let negated = source.neg(&mut circuit);
    assert_eq!(
        circuit.nodes[negated.node].inputs,
        vec![(sharded.node, OwnershipPreference::PreferOwned)]
    );
    assert!(negated.has_sharded_version(&circuit));
}

#[test]
fn sum_reads_all_streams_and_aliases() {
    let mut circuit = Circuit::new(1, 0);
    let s1: Stream<i32> = circuit.add_source();
    let s2: Stream<i32> = circuit.add_source();
    let s3: Stream<i32> = circuit.add_source();
    let total = s3.sum(&mut circuit, &vec![s2.copy(), s1.copy(), s3.copy()]);
    assert_eq!(circuit.nodes[total.node].kind, NodeKind::Sum);
    assert_eq!(
        circuit.nodes[total.node].inputs,
        vec![
            (s3.node, OwnershipPreference::PreferOwned),
            (s2.node, OwnershipPreference::PreferOwned),
            (s1.node, OwnershipPreference::PreferOwned),
            (s3.node, OwnershipPreference::PreferOwned),
        ]
    );
}

#[test]
fn delay_is_built_once() {
    let mut circuit = Circuit::new(1, 0);
    let source: Stream<i32> = circuit.add_source();
    let delayed = source.delay(&mut circuit);
    assert_eq!(circuit.nodes[delayed.node].kind, NodeKind::Z1);
    assert_eq!(source.delay(&mut circuit).node, delayed.node);
    let nested = source.delay_nested(&mut circuit);
    assert_eq!(circuit.nodes[nested.node].kind, NodeKind::Z1Nested);
    assert_eq!(source.delay_nested(&mut circuit).node, nested.node);
    assert!(nested.node != delayed.node);
    assert_eq!(circuit.nodes.len(), 3);
}

#[test]
fn feedback_is_remembered_as_the_delay() {
    let mut circuit = Circuit::new(1, 0);
    let feedback: DelayedFeedback<i32> = DelayedFeedback::new(&mut circuit);
    let output = feedback.stream().copy();
    assert_eq!(circuit.nodes[output.node].kind, NodeKind::Z1);
    assert!(circuit.nodes[output.node].inputs.is_empty());
    // use the output before the input exists
    let input = output.neg(&mut circuit);
    feedback.connect(&mut circuit, &input);
    assert_eq!(
        circuit.nodes[output.node].inputs,
        vec![(input.node, OwnershipPreference::StronglyPreferOwned)]
    );
    assert_eq!(input.delay(&mut circuit).node, output.node);
    assert_eq!(circuit.cache_get(CacheKey::ExportId(input.node)), Some(output.node + 1));
    assert_eq!(circuit.nodes[output.node + 1].kind, NodeKind::Export);
}

#[test]
fn nested_feedback_is_remembered_as_the_nested_delay() {
    let mut circuit = Circuit::new(1, 0);
    let feedback: DelayedNestedFeedback<i32> = DelayedNestedFeedback::new(&mut circuit);
    let output = feedback.stream().copy();
    let input = output.neg(&mut circuit);
    feedback.connect(&mut circuit, &input);
    assert_eq!(circuit.nodes[output.node].kind, NodeKind::Z1Nested);
    assert_eq!(input.delay_nested(&mut circuit).node, output.node);
}

#[test]
fn trace_is_built_once_with_its_delay() {
    let (mut circuit, source) = two_workers();
    let trace: Stream<i64> = source.trace(&mut circuit);
    assert_eq!(circuit.nodes.len(), 4);
    assert_eq!(circuit.nodes[1].kind, NodeKind::Z1Trace { reset_on_clock_start: false });
    assert_eq!(
        circuit.nodes[1].inputs,
        vec![(trace.node, OwnershipPreference::StronglyPreferOwned)]
    );
    assert_eq!(circuit.nodes[2].kind, NodeKind::Export);
    assert_eq!(circuit.nodes[trace.node].kind, NodeKind::TraceAppend);
    assert_eq!(
        circuit.nodes[trace.node].inputs,
        vec![
            (1, OwnershipPreference::StronglyPreferOwned),
            (source.node, OwnershipPreference::PreferOwned),
        ]
    );
    let again: Stream<i64> = source.trace(&mut circuit);
    assert_eq!(again.node, trace.node);
    assert_eq!(circuit.nodes.len(), 4);
    assert_eq!(trace.delay_trace(&circuit).node, 1);
    assert!(!trace.has_sharded_version(&circuit));
}

#[test]
fn trace_of_a_sharded_stream_is_sharded() {
    let (mut circuit, source) = two_workers();
    let sharded = source.shard(&mut circuit);
    let trace: Stream<i64> = source.integrate_trace(&mut circuit);
    assert_eq!(circuit.nodes[trace.node].kind, NodeKind::UntimedTraceAppend);
    assert_eq!(circuit.nodes[trace.node].inputs[1].0, sharded.node);
    assert!(trace.has_sharded_version(&circuit));
    let delayed = trace.delay_trace(&circuit);
    assert_eq!(circuit.nodes[delayed.node].kind, NodeKind::Z1Trace { reset_on_clock_start: true });
    assert!(delayed.has_sharded_version(&circuit));
}

#[test]
fn gather_is_built_once_per_receiver() {
    let (mut circuit, source) = two_workers();
    let gathered = source.gather(&mut circuit, 0);
    assert_eq!(circuit.nodes[gathered.node].kind, NodeKind::Consolidate);
    assert_eq!(
        circuit.nodes[gathered.node - 1].kind,
        NodeKind::GatherExchange { receiver: 0, channel: 0, end: GatherEnd::Receiving }
    );
    assert_eq!(circuit.sequence, 1);
    assert_eq!(source.gather(&mut circuit, 0).node, gathered.node);
    assert_eq!(circuit.sequence, 1);
    let elsewhere = source.gather(&mut circuit, 1);
    assert!(elsewhere.node != gathered.node);
    assert_eq!(
        circuit.nodes[elsewhere.node - 1].kind,
        NodeKind::GatherExchange { receiver: 1, channel: 1, end: GatherEnd::Empty }
    );
    assert_eq!(circuit.sequence, 2);

    let mut alone = Circuit::new(1, 0);
    let single: Stream<i32> = alone.add_source();
    assert_eq!(single.gather(&mut alone, 0).node, single.node);
    assert_eq!(alone.sequence, 0);
}

#[test]
fn cache_keeps_the_last_value_of_a_key() {
    let mut circuit = Circuit::new(1, 0);
    let a: Stream<i32> = circuit.add_source();
    let b: Stream<i32> = circuit.add_source();
    assert_eq!(circuit.cache_get(CacheKey::TraceId(0)), None);
    assert!(!circuit.cache_contains(CacheKey::TraceId(0)));
    circuit.cache_insert(CacheKey::TraceId(0), a.node);
    circuit.cache_insert(CacheKey::DelayedId(0), b.node);
    circuit.cache_insert(CacheKey::TraceId(0), b.node);
    assert_eq!(circuit.cache_get(CacheKey::TraceId(0)), Some(b.node));
    assert_eq!(circuit.cache_get(CacheKey::DelayedId(0)), Some(b.node));
    assert_eq!(circuit.cache_get(CacheKey::GatherId(0, 0)), None);
    assert_eq!(circuit.num_workers(), 1);
    assert_eq!(circuit.root_scope(), 0);
}

#[test]
fn preferences_are_ranked() {
    assert!(OwnershipPreference::Indifferent.rank() < OwnershipPreference::PreferOwned.rank());
    assert!(
        OwnershipPreference::PreferOwned.rank() < OwnershipPreference::StronglyPreferOwned.rank()
    );
    assert_eq!(OwnershipPreference::Indifferent.rank(), 0);
}

#[test]
fn one_strong_reader_is_owed_its_input() {
    let mut circuit = Circuit::new(1, 0);
    let source: Stream<i32> = circuit.add_source();
    let reader = circuit.add_unary(
        NodeKind::UntimedTraceAppend,
        source.node,
        OwnershipPreference::StronglyPreferOwned,
    );
    let other = circuit.add_unary(NodeKind::UnaryMinus, source.node, OwnershipPreference::PreferOwned);
    assert_eq!(circuit.strong_demand(source.node), 1);
    assert_eq!(circuit.strong_demand(reader), 0);
    assert!(circuit.owes_ownership(reader, 0));
    assert!(!circuit.owes_ownership(other, 0));
    assert_eq!(circuit.preference_conflict(), None);
}

#[test]
fn two_strong_readers_of_one_stream_conflict() {
    let mut circuit = Circuit::new(1, 0);
    let first: Stream<i32> = circuit.add_source();
    let second: Stream<i32> = circuit.add_source();
    let reader = circuit.add_unary(
        NodeKind::UntimedTraceAppend,
        second.node,
        OwnershipPreference::StronglyPreferOwned,
    );
    assert_eq!(circuit.preference_conflict(), None);
    circuit.connect(reader, second.node, OwnershipPreference::StronglyPreferOwned);
    assert_eq!(circuit.strong_demand(first.node), 0);
    assert_eq!(circuit.strong_demand(second.node), 2);
    assert!(!circuit.owes_ownership(reader, 0));
    assert_eq!(circuit.preference_conflict(), Some(second.node));
    let third = circuit.add_unary(NodeKind::Sum, second.node, OwnershipPreference::StronglyPreferOwned);
    assert_eq!(circuit.strong_demand(second.node), 2);
    assert!(!circuit.owes_ownership(third, 0));
}

#[test]
fn built_circuits_have_no_conflict() {
    let (mut circuit, source) = two_workers();
    let sharded = source.shard(&mut circuit);
    let gathered = sharded.gather(&mut circuit, 0);
    let negated = gathered.neg(&mut circuit);
    let delayed = negated.delay(&mut circuit);
    assert!(delayed.node < circuit.nodes.len());
    assert_eq!(circuit.preference_conflict(), None);
}
