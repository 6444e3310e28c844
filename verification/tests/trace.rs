use dbsp::operator::trace::batch_add_time;
use dbsp::operator::{TraceAppend, UntimedTraceAppend, Z1Trace};
use dbsp::circuit::OwnershipPreference;
use dbsp::trace::ord::zset_batch::OrdZSet;
use dbsp::trace::ord::OrdKeyBatch;
use dbsp::trace::Spine;

type Batch = OrdKeyBatch<u32, u32, i64>;

fn zset(tuples: Vec<(u32, i64)>) -> OrdZSet<u32, i64> {
    OrdZSet::from_tuples((), tuples)
}

fn tuples(batch: &Batch) -> Vec<((u32, u32), i64)> {
    batch.layer.to_tuples()
}

#[test]
fn spine_merges_batches_of_like_size() {
    let mut spine: Spine<OrdZSet<u32, i64>> = Spine::new();
    assert!(!spine.dirty());
    assert_eq!(spine.num_batches(), 0);
    spine.insert(zset((0..8).map(|n| (n, 1)).collect()));
    assert!(spine.dirty());
    spine.insert(zset(vec![(100, 1)]));
    spine.insert(zset(vec![(101, 1)]));
    // 8, then 1 and 1 merged to 2
    assert_eq!(spine.num_batches(), 2);
    spine.insert(zset(vec![(102, 1), (103, 1)]));
    // 2 and 2 make 4, which is not more than half of 8
    assert_eq!(spine.num_batches(), 2);
    assert_eq!(spine.num_entries_deep(), 12);
    for batch in [zset(vec![(0, -1)]), zset(vec![])] {
        spine.insert(batch);
    }
    assert_eq!(spine.num_batches(), 3);
    spine.insert(zset(vec![(104, 1)]));
    // 1 and 1 make 2, which is not more than half of 4
    assert_eq!(spine.num_batches(), 3);
    spine.insert(zset(vec![(104, -1)]));
    assert_eq!(spine.num_batches(), 4);
    spine.clear_dirty_flag();
    assert!(!spine.dirty());
    spine.insert(zset(vec![]));
    assert!(!spine.dirty());
    let mut expected: Vec<(u32, i64)> = (1..8).map(|n| (n, 1)).collect();
    expected.extend((100..104).map(|n| (n, 1)));
    assert_eq!(spine.merged(), zset(expected.clone()));
    assert_eq!(spine.num_batches(), 4);
    assert_eq!(spine.consolidate(), zset(expected));
    assert_eq!(Spine::<OrdZSet<u32, i64>>::new().consolidate(), zset(vec![]));
}

#[test]
fn spine_sizes_fall_by_halves() {
    let mut spine: Spine<OrdZSet<u32, i64>> = Spine::new();
    for n in 0..1000u32 {
        spine.insert(zset(vec![(n, 1)]));
        let sizes: Vec<usize> = spine.batches.iter().map(|batch| batch.len()).collect();
        assert!(sizes.windows(2).all(|pair| 2 * pair[1] <= pair[0]));
        assert_eq!(sizes.iter().sum::<usize>(), n as usize + 1);
        assert!(spine.num_batches() <= 10);
    }
}

#[test]
fn spine_recedes_every_batch() {
    let mut spine: Spine<Batch> = Spine::new();
    spine.insert(OrdKeyBatch::from_tuples(1, (0..4).map(|n| (n, 1)).collect()));
    spine.insert(OrdKeyBatch::from_tuples(7, vec![(0, -1)]));
    assert_eq!(spine.num_batches(), 2);
    spine.recede_to(&3);
    assert_eq!(tuples(&spine.batches[1]), vec![((0, 3), -1)]);
    spine.recede_to(&1);
    assert_eq!(
        tuples(&spine.consolidate()),
        vec![((1, 1), 1), ((2, 1), 1), ((3, 1), 1)]
    );
}

#[test]
fn batch_add_time_stamps_every_tuple() {
    let timed: Batch = batch_add_time(&zset(vec![(5, 1), (6, 2)]), &7);
    assert_eq!(tuples(&timed), vec![((5, 7), 1), ((6, 7), 2)]);
    assert_eq!(timed.lower.elements, vec![7]);
    assert_eq!(timed.upper.elements, vec![8]);
    let none: Batch = batch_add_time(&zset(vec![]), &0);
    assert!(none.is_empty());
    let untimed: OrdKeyBatch<u32, (), i64> = OrdKeyBatch::from_tuples((), vec![(1, 1)]);
    assert_eq!(untimed.layer.to_tuples(), vec![((1, ()), 1)]);
}

#[test]
fn trace_append_stamps_batches_with_the_tick() {
    let mut append: TraceAppend<Spine<Batch>, OrdZSet<u32, i64>> = TraceAppend::new();
    assert_eq!(append.name(), "TraceAppend");
    assert!(append.fixedpoint(0));
    assert_eq!(
        append.input_preference(),
        (OwnershipPreference::PreferOwned, OwnershipPreference::PreferOwned)
    );
    let trace = Spine::new();
    let trace = append.eval_owned(trace, zset(vec![(1, 1), (2, 1)]));
    let trace = append.eval_owned_and_ref(trace, &zset(vec![(1, -1)]));
    let trace = append.eval_owned(trace, zset(vec![]));
    let trace = append.eval_owned(trace, zset(vec![(3, 1)]));
    assert!(trace.dirty());
    assert_eq!(
        tuples(&trace.consolidate()),
        vec![((1, 0), 1), ((1, 1), -1), ((2, 0), 1), ((3, 3), 1)]
    );
    append.clock_end(0);
}

#[test]
fn untimed_trace_append_inserts_batches() {
    let mut append: UntimedTraceAppend<Spine<OrdZSet<u32, i64>>> = UntimedTraceAppend::new();
    assert_eq!(append.name(), "UntimedTraceAppend");
    assert!(append.fixedpoint(1));
    assert_eq!(
        append.input_preference(),
        (OwnershipPreference::PreferOwned, OwnershipPreference::PreferOwned)
    );
    let trace = append.eval_owned(Spine::new(), zset(vec![(1, 1)]));
    let trace = append.eval_owned_and_ref(trace, &zset(vec![(1, 1), (2, 1)]));
    assert_eq!(trace.consolidate(), zset(vec![(1, 2), (2, 1)]));
}

#[test]
fn z1_trace_keeps_the_trace_between_ticks() {
    let mut z1: Z1Trace<Spine<Batch>> = Z1Trace::new(false, 1);
    assert_eq!(z1.name(), "Z1 (trace)");
    assert_eq!(z1.input_preference(), OwnershipPreference::PreferOwned);
    let mut append: TraceAppend<Spine<Batch>, OrdZSet<u32, i64>> = TraceAppend::new();

    z1.clock_start(1);
    z1.clock_start(0);
    assert!(z1.fixedpoint(0));
    for (tick, batch) in [zset(vec![(1, 1)]), zset(vec![]), zset(vec![(2, 1)])]
        .into_iter()
        .enumerate()
    {
        let trace = z1.get_output();
        assert!(!trace.dirty());
        let trace = append.eval_owned(trace, batch);
        z1.eval_strict_owned(trace);
        // the trace is dirty at both scopes after a batch that is not empty
        assert_eq!(z1.fixedpoint(0), tick == 1);
        assert!(!z1.fixedpoint(1));
    }
    z1.clock_start(0);
    assert!(z1.fixedpoint(0));
    assert!(!z1.fixedpoint(1));
    // the end of the clock below the root takes the times back
    z1.clock_end(0);
    let trace = z1.get_output();
    assert_eq!(tuples(&trace.consolidate()), vec![((1, 0), 1), ((2, 2), 1)]);
    z1.clock_start(0);
    assert!(z1.get_final_output().batches.is_empty());
    assert_eq!(z1.get_output().num_batches(), 0);

    let mut integral: Z1Trace<Spine<Batch>> = Z1Trace::new(true, 0);
    integral.clock_start(0);
    let trace = append.eval_owned(integral.get_output(), zset(vec![(4, 4)]));
    integral.eval_strict_owned(trace);
    integral.clock_end(0);
    assert_eq!(integral.get_final_output().num_batches(), 1);
}

fn three_batches() -> Spine<Batch> {
    // built by hand, so that the batches stay apart
    Spine {
        batches: vec![
            Batch::from_tuples(0, vec![(1, 1), (3, 1), (5, 1), (7, 2)]),
            Batch::from_tuples(1, vec![(3, 2), (4, 1), (7, -2)]),
            Batch::from_tuples(0, vec![(5, -1), (9, 1)]),
        ],
        dirty: true,
    }
}

#[test]
fn trace_cursor_meets_the_keys_in_order() {
    let spine = three_batches();
    let mut cursor = spine.cursor();
    let mut seen = Vec::new();
    while cursor.key_valid() {
        seen.push((*cursor.key(), cursor.times()));
        cursor.step_key();
    }
    assert_eq!(
        seen,
        vec![
            (1, vec![(0, 1)]),
            (3, vec![(0, 1), (1, 2)]),
            (4, vec![(1, 1)]),
            // the weights of the key 5 cancel
            (5, vec![]),
            (7, vec![(0, 2), (1, -2)]),
            (9, vec![(0, 1)]),
        ]
    );
    // what the cursor yields is what the merged trace holds
    let merged = spine.merged();
    let mut expected = Vec::new();
    for (key, times) in seen {
        for (time, weight) in times {
            expected.push(((key, time), weight));
        }
    }
    assert_eq!(tuples(&merged), expected);
}

#[test]
fn trace_cursor_seeks_and_rewinds() {
    let spine = three_batches();
    let mut cursor = spine.cursor();
    cursor.seek_key(&4);
    assert_eq!(cursor.key(), &4);
    cursor.seek_key(&6);
    assert_eq!(cursor.key(), &7);
    assert_eq!(cursor.times(), vec![(0, 2), (1, -2)]);
    // a cursor does not go back on seeking
    cursor.seek_key(&2);
    assert_eq!(cursor.key(), &7);
    cursor.seek_key(&10);
    assert!(!cursor.key_valid());
    cursor.rewind_keys();
    assert_eq!(cursor.key(), &1);
    let empty: Spine<Batch> = Spine::new();
    assert!(!empty.cursor().key_valid());
}
