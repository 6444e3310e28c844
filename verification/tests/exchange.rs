use dbsp::algebra::HasZero;
use dbsp::circuit::Stream;
use dbsp::circuit::GatherEnd;
use dbsp::operator::communication::gather::{
    eval_gather_end, gather_end, GatherConsumer, GatherData, GatherProducer,
};
use dbsp::operator::communication::shard::shard_index;
use dbsp::trace::ord::indexed_zset_batch::OrdIndexedZSetBuilder;
use dbsp::trace::ord::OrdIndexedZSet;
use dbsp::trace::Spine;

type Batch = OrdIndexedZSet<usize, usize, isize>;

fn test_data(worker_index: usize, num_workers: usize) -> Batch {
    let tuples: Vec<_> = (0..1000)
        .filter(|n| n % num_workers == worker_index)
        .flat_map(|n| vec![((n, n), 1), ((n, 1000 * n), 1)])
        .collect();
    <OrdIndexedZSet<usize, usize, isize>>::from_tuples((), tuples)
}

/// One tick of `input.shard().gather(0)` on `workers` workers: what each worker
/// sees behind the gathering.
fn shard_then_gather(workers: usize) -> Vec<Batch> {
    // Each worker shards its input.
    let mut sent: Vec<Vec<Batch>> = Vec::new();
    let mut builders: Vec<OrdIndexedZSetBuilder<usize, usize, isize>> = Vec::new();
    for worker in 0..workers {
        let input = test_data(worker, workers);
        let mut parts = Vec::new();
        Stream::<Batch>::shard_batch(&input, workers, &mut builders, &mut parts);
        assert!(builders.is_empty());
        assert_eq!(parts.len(), workers);
        sent.push(parts);
    }
    // Each worker adds up the parts that are addressed to it.
    let mut sharded: Vec<Batch> = Vec::new();
    for receiver in 0..workers {
        let mut spine = Spine::new();
        for parts in sent.iter() {
            spine.insert(parts[receiver].clone());
        }
        sharded.push(spine.consolidate());
    }
    // Worker 0 gathers.
    let mut channel: GatherData<Batch> = GatherData::new(workers);
    let consumer = GatherConsumer::new();
    for (worker, batch) in sharded.into_iter().enumerate() {
        assert!(!consumer.ready(&channel));
        let producer = GatherProducer::new(worker);
        assert!(producer.eval_owned(&mut channel, batch));
    }
    assert!(consumer.ready(&channel));
    // Each worker reads the end of the gathering that is chosen for it.
    let mut outputs = Vec::new();
    for worker in 0..workers {
        let end = gather_end(worker, 0);
        assert_eq!(end == GatherEnd::Receiving, worker == 0);
        outputs.push(eval_gather_end(end, &mut channel).consolidate());
        assert!(!channel.all_channels_ready());
    }
    outputs
}

fn do_test_shard(workers: usize) {
    for _ in 0..3 {
        let outputs = shard_then_gather(workers);
        for (worker, batch) in outputs.iter().enumerate() {
            if worker == 0 {
                assert_eq!(batch, &test_data(0, 1))
            } else {
                assert_eq!(batch.len(), 0);
            }
        }
    }
}

#[test]
fn test_shard() {
    do_test_shard(2);
    do_test_shard(4);
    do_test_shard(16);
}

#[test]
fn shard_with_one_worker_is_identity() {
    let outputs = shard_then_gather(1);
    assert_eq!(outputs.len(), 1);
    assert_eq!(&outputs[0], &test_data(0, 1));
}

#[test]
fn shard_keeps_each_key_in_one_part() {
    let input = test_data(0, 1);
    let mut builders = Vec::new();
    let mut parts = Vec::new();
    Stream::<Batch>::shard_batch(&input, 4, &mut builders, &mut parts);
    assert_eq!(parts.len(), 4);
    let mut keys = 0;
    let mut tuples = 0;
    for part in parts.iter() {
        // both tuples of a key are in the part of the key; the two tuples of
        // the key 0 are one tuple of weight 2
        let merged = if part.layer.keys.contains(&0) { 1 } else { 0 };
        assert_eq!(part.len() + merged, 2 * part.key_count());
        keys += part.key_count();
        tuples += part.len();
    }
    assert_eq!(keys, 1000);
    assert_eq!(tuples, 1999);
}

#[test]
fn shard_by_route_sends_keys_where_told() {
    let input: Batch =
        OrdIndexedZSet::from_tuples((), vec![((1, 10), 1), ((2, 20), 2), ((3, 30), 3), ((3, 31), 4)]);
    let mut builders = Vec::new();
    let mut parts = vec![<Batch as HasZero>::zero()];
    Stream::<Batch>::shard_batch_by(&input, 3, &vec![2, 0, 2], &mut builders, &mut parts);
    assert_eq!(parts.len(), 4);
    assert_eq!(parts[0], <Batch as HasZero>::zero());
    assert_eq!(parts[1], OrdIndexedZSet::from_tuples((), vec![((2, 20), 2)]));
    assert_eq!(parts[2], <Batch as HasZero>::zero());
    assert_eq!(
        parts[3],
        OrdIndexedZSet::from_tuples((), vec![((1, 10), 1), ((3, 30), 3), ((3, 31), 4)])
    );
}

#[test]
fn shard_index_is_hash_modulo_workers() {
    assert_eq!(shard_index(0, 4), 0);
    assert_eq!(shard_index(7, 4), 3);
    assert_eq!(shard_index(16, 16), 0);
    assert_eq!(shard_index(u64::MAX, 1), 0);
    assert_eq!(shard_index(1_000_003, 16), 3);
}

#[test]
fn gather_channel_holds_one_batch_per_worker() {
    let mut channel: GatherData<i32> = GatherData::new(3);
    assert_eq!(channel.workers(), 3);
    assert!(!channel.all_channels_ready());
    channel.push(1, 11);
    channel.push(0, 10);
    assert!(!channel.all_channels_ready());
    channel.push(2, 12);
    assert!(channel.all_channels_ready());
    assert_eq!(channel.pop(1), 11);
    assert!(!channel.all_channels_ready());
    channel.push(1, 21);
    assert_eq!(channel.pop(0), 10);
    assert_eq!(channel.pop(1), 21);
    assert_eq!(channel.pop(2), 12);
}

#[test]
fn gather_consumer_sums_what_was_sent() {
    let mut channel: GatherData<i32> = GatherData::new(3);
    let consumer = GatherConsumer::new();
    assert!(consumer.is_async());
    assert!(GatherProducer::new(0).eval(&mut channel, &5));
    assert!(GatherProducer::new(2).eval(&mut channel, &7));
    assert!(!consumer.ready(&channel));
    assert!(GatherProducer::new(1).eval_owned(&mut channel, -2));
    assert!(consumer.ready(&channel));
    let spine = consumer.eval(&mut channel);
    assert_eq!(spine.consolidate(), 10);
    assert!(!consumer.ready(&channel));
}
