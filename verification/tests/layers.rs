use dbsp::trace::layers::advance;
use dbsp::trace::layers::column_layer::{stride, ColumnLayer, ColumnLayerBuilder, MERGE_STRIDE};
use dbsp::trace::layers::ordered::{OrderedBuilder, OrderedLayer, UnorderedBuilder};

type Layer = OrderedLayer<u32, ColumnLayer<u32, i64>>;
type Builder = OrderedBuilder<u32, ColumnLayerBuilder<u32, i64>>;

fn layer(tuples: Vec<((u32, u32), i64)>) -> Layer {
    UnorderedBuilder { vals: tuples }.done()
}

fn column(keys: Vec<u32>, diffs: Vec<i64>) -> ColumnLayer<u32, i64> {
    ColumnLayer { keys, diffs }
}

#[test]
fn advance_finds_the_end_of_the_prefix() {
    let values: Vec<u32> = (0..100).collect();
    for bound in [0u32, 1, 2, 7, 8, 9, 10, 31, 32, 33, 63, 64, 99, 100, 1000] {
        let expected = values.iter().filter(|x| **x < bound).count();
        assert_eq!(advance(&values, |x| *x < bound), expected);
    }
    let empty: Vec<u32> = Vec::new();
    assert_eq!(advance(&empty, |_| true), 0);
    assert_eq!(advance(&[5u32], |x| *x < 5), 0);
    assert_eq!(advance(&[5u32], |x| *x < 6), 1);
}

#[test]
fn stride_stops_at_the_bound_and_at_the_limit() {
    let keys: Vec<u32> = (0..3000).collect();
    assert_eq!(stride(&keys, 0, 3000, &10), 10);
    assert_eq!(stride(&keys, 5, 3000, &10), 5);
    // the first key is taken in any case
    assert_eq!(stride(&keys, 20, 3000, &10), 1);
    assert_eq!(stride(&keys, 0, 3000, &2500), MERGE_STRIDE);
    assert_eq!(stride(&keys, 0, 7, &2500), 7);
    assert_eq!(MERGE_STRIDE, 1000);
}

#[test]
fn column_builder_sums_equal_keys() {
    let mut builder: ColumnLayerBuilder<u32, i64> = ColumnLayerBuilder::new();
    builder.push_tuple((1, 2));
    builder.push_tuple((1, 3));
    builder.push_tuple((2, 0));
    builder.push_tuple((3, 4));
    builder.push_tuple((3, -4));
    builder.push_tuple((4, 1));
    assert_eq!(builder.tuples(), 2);
    let layer = builder.done();
    assert_eq!(layer, column(vec![1, 4], vec![5, 1]));
}

#[test]
fn column_builder_does_not_sum_across_a_boundary() {
    let mut builder: ColumnLayerBuilder<u32, i64> = ColumnLayerBuilder::with_capacity(4);
    builder.push_tuple((7, 1));
    assert_eq!(builder.boundary(), 1);
    builder.push_tuple((7, -1));
    builder.push_tuple((3, 2));
    assert_eq!(builder.boundary(), 3);
    assert_eq!(builder.done(), column(vec![7, 7, 3], vec![1, -1, 2]));
}

#[test]
fn column_merge_adds_weights_and_drops_zeros() {
    let a = column(vec![1, 3, 5, 7], vec![1, 1, 1, 1]);
    let b = column(vec![2, 3, 5, 9], vec![2, -1, 4, 2]);
    let mut builder = ColumnLayerBuilder::new();
    let end = builder.push_merge(a.cursor(), b.cursor());
    assert_eq!(end, 5);
    assert_eq!(
        builder.done(),
        column(vec![1, 2, 5, 7, 9], vec![1, 2, 5, 1, 2])
    );

    // ranges of the two layers
    let mut builder = ColumnLayerBuilder::new();
    builder.copy_range(&a, 0, 1);
    let end = builder.push_merge(a.cursor_from(1, 3), b.cursor_from(1, 2));
    assert_eq!(end, 2);
    assert_eq!(builder.done(), column(vec![1, 5], vec![1, 1]));
}

#[test]
fn column_cursor_walks_and_seeks() {
    let layer = column(vec![10, 20, 30, 40], vec![1, 2, 3, 4]);
    assert_eq!(layer.tuples(), 4);
    assert!(!layer.is_empty());
    let mut cursor = layer.cursor_from(1, 4);
    assert_eq!(cursor.keys(), 3);
    assert_eq!(cursor.key(), (&20, &2));
    cursor.seek(&35);
    assert_eq!((cursor.current_key(), cursor.current_diff()), (&40, &4));
    cursor.seek(&35);
    assert_eq!(cursor.current_key(), &40);
    cursor.step();
    assert!(!cursor.valid());
    cursor.step();
    assert_eq!(cursor.pos, 4);
    cursor.rewind();
    assert_eq!(cursor.current_key(), &20);
    assert_eq!(cursor.last_key(), Some(&40));
    cursor.reposition(0, 1);
    assert_eq!(cursor.current_key(), &10);
    cursor.reposition(2, 2);
    assert!(!cursor.valid());
    assert_eq!(cursor.last_key(), None);
}

#[test]
fn column_negates_and_truncates() {
    let layer = column(vec![1, 2, 3], vec![5, -6, 7]);
    assert_eq!(layer.neg_by_ref(), column(vec![1, 2, 3], vec![-5, 6, -7]));
    let mut negated = layer.clone().neg();
    assert_eq!(negated, column(vec![1, 2, 3], vec![-5, 6, -7]));
    negated.truncate(2);
    assert_eq!(negated, column(vec![1, 2], vec![-5, 6]));
    negated.truncate(5);
    assert_eq!(negated.tuples(), 2);
    let (keys, diffs) = negated.columns_mut();
    keys[0] = 0;
    diffs[1] = 9;
    assert_eq!(negated, column(vec![0, 2], vec![-5, 9]));
    assert_eq!(ColumnLayer::<u32, i64>::empty().tuples(), 0);
}

#[test]
fn column_consolidates_a_range_in_place() {
    let mut layer = column(vec![9, 5, 3, 5, 3, 1], vec![1, 2, 3, 4, -3, 6]);
    let mut scratch = Vec::new();
    let count = layer.consolidate_range(1, 5, &mut scratch);
    assert_eq!(count, 1);
    assert_eq!((layer.keys[0], layer.diffs[0]), (9, 1));
    assert_eq!((layer.keys[1], layer.diffs[1]), (5, 6));
    assert_eq!((layer.keys[5], layer.diffs[5]), (1, 6));
    layer.move_down(5, 1, 2);
    assert_eq!((layer.keys[2], layer.diffs[2]), (1, 6));
    layer.truncate(3);
    assert_eq!(layer, column(vec![9, 5, 1], vec![1, 6, 6]));
}

#[test]
fn ordered_builder_round_trip() {
    let mut builder = Builder::new();
    let pushed = vec![
        (1, (10, 1)),
        (1, (10, 2)),
        (1, (11, 1)),
        (2, (5, 4)),
        (2, (5, -4)),
        (3, (1, 0)),
        (4, (7, 1)),
        (4, (8, -1)),
    ];
    for tuple in pushed {
        builder.push_tuple(tuple);
    }
    assert_eq!(builder.tuples(), 4);
    let layer = builder.done();
    // the keys 2 and 3 hold nothing and are not in the layer
    assert_eq!(layer.keys, vec![1, 4]);
    assert_eq!(layer.offs, vec![0, 2, 4]);
    assert_eq!(
        layer.to_tuples(),
        vec![((1, 10), 3), ((1, 11), 1), ((4, 7), 1), ((4, 8), -1)]
    );
    assert_eq!(layer.keys(), 2);
    assert_eq!(layer.tuples(), 4);
    assert_eq!(layer.num_entries_shallow(), 2);
    assert_eq!(layer.num_entries_deep(), 4);
    let (keys, offs, vals) = layer.into_parts();
    assert_eq!((keys, offs), (vec![1, 4], vec![0, 2, 4]));
    assert_eq!(vals.keys, vec![10, 11, 7, 8]);
}

#[test]
fn ordered_builder_boundary_closes_the_key() {
    let mut builder = Builder::with_capacity(2);
    builder.push_tuple((1, (1, 1)));
    assert_eq!(builder.boundary(), 1);
    builder.push_tuple((2, (1, 1)));
    builder.push_tuple((2, (1, -1)));
    // the key 2 holds nothing and is dropped when it is closed
    assert_eq!(builder.boundary(), 1);
    assert_eq!(builder.done().to_tuples(), vec![((1, 1), 1)]);
    assert!(Builder::with_key_capacity(3).done().is_empty());
}

#[test]
fn with_key_pushes_the_values_of_one_key() {
    let mut builder = Builder::new();
    builder.with_key(1, |mut vals| {
        vals.push((5, 1));
        vals.push((6, 2));
        vals
    });
    // a key without values is discarded: the builder stays as it was
    let (keys, offs) = (builder.keys.clone(), builder.offs.clone());
    builder.with_key(2, |vals| vals);
    assert_eq!((builder.keys.clone(), builder.offs.clone()), (keys, offs));
    assert_eq!(builder.keys, vec![1]);
    builder.with_key(3, |mut vals| {
        vals.push((1, 1));
        vals.push((1, -1));
        vals
    });
    builder.with_key(4, |mut vals| {
        vals.push((9, 9));
        vals
    });
    builder.with_key(4, |mut vals| {
        vals.push((9, 1));
        vals
    });
    let layer = builder.done();
    assert_eq!(layer.keys, vec![1, 4]);
    assert_eq!(layer.to_tuples(), vec![((1, 5), 1), ((1, 6), 2), ((4, 9), 10)]);
}

#[test]
fn unordered_builder_sorts_and_consolidates() {
    let mut builder: UnorderedBuilder<u32, u32, i64> = UnorderedBuilder::new();
    builder.push_tuple((3, (1, 1)));
    builder.push_tuple((1, (2, 1)));
    builder.extend_tuples(vec![(3, (1, -1)), (1, (1, 5)), (1, (2, 1)), (2, (0, 0))]);
    builder.reserve_tuples(10);
    assert_eq!(builder.tuples(), 6);
    assert_eq!(builder.boundary(), 6);
    let layer = builder.done();
    assert_eq!(layer.to_tuples(), vec![((1, 1), 5), ((1, 2), 2)]);
    assert!(UnorderedBuilder::<u32, u32, i64>::with_capacity(1).done().is_empty());
}

#[test]
fn merge_is_commutative_and_has_an_identity() {
    let a = layer(vec![((1, 1), 1), ((1, 2), 2), ((3, 1), 3), ((5, 5), 5)]);
    let b = layer(vec![((1, 2), -2), ((2, 1), 1), ((3, 1), -3), ((6, 1), 1)]);
    let ab = a.merge(&b);
    assert_eq!(ab, b.merge(&a));
    assert_eq!(
        ab.to_tuples(),
        vec![((1, 1), 1), ((2, 1), 1), ((5, 5), 5), ((6, 1), 1)]
    );
    let empty = Layer::empty();
    assert_eq!(a.merge(&empty), a);
    assert_eq!(empty.merge(&a), a);
    assert_eq!(a.merge(&a.neg_by_ref()), empty);
    assert_eq!(a.clone().neg().to_tuples()[0], ((1, 1), -1));
}

#[test]
fn merge_of_long_layers() {
    // more keys than one step of a merge copies
    let evens = layer((0..3000).map(|n| ((2 * n, n), 1)).collect());
    let odds = layer((0..3000).map(|n| ((2 * n + 1, n), 1)).collect());
    let tail = layer((10_000..13_000).map(|n| ((n, 0), 1)).collect());
    let merged = evens.merge(&odds).merge(&tail);
    assert_eq!(merged.keys(), 9000);
    let expected: Vec<u32> = (0..6000).chain(10_000..13_000).collect();
    assert_eq!(merged.keys, expected);
    assert_eq!(merged, tail.merge(&odds).merge(&evens));
}

#[test]
fn merge_step_copies_or_merges() {
    let a = layer(vec![((1, 1), 1), ((2, 1), 1), ((5, 1), 1)]);
    let b = layer(vec![((3, 1), 1), ((5, 1), -1), ((6, 1), 1)]);
    let mut builder = Builder::with_capacity_for(&a, &b);
    let (mut lower1, mut lower2) = (0, 0);
    // the keys 1 and 2 are before 3
    builder.merge_step((&a, &mut lower1, 3), (&b, &mut lower2, 3));
    assert_eq!((lower1, lower2), (2, 0));
    builder.merge_step((&a, &mut lower1, 3), (&b, &mut lower2, 3));
    assert_eq!((lower1, lower2), (2, 1));
    // the key 5 cancels
    builder.merge_step((&a, &mut lower1, 3), (&b, &mut lower2, 3));
    assert_eq!((lower1, lower2), (3, 2));
    assert_eq!(builder.keys, vec![1, 2, 3]);
    builder.copy_range(&b, 2, 3);
    assert_eq!(
        builder.done().to_tuples(),
        vec![((1, 1), 1), ((2, 1), 1), ((3, 1), 1), ((6, 1), 1)]
    );
}

#[test]
fn layer_addition() {
    let a = layer(vec![((1, 1), 1)]);
    let b = layer(vec![((1, 1), 1), ((2, 2), 2)]);
    let sum = layer(vec![((1, 1), 2), ((2, 2), 2)]);
    assert_eq!(a.clone().add(b.clone()), sum);
    assert_eq!(Layer::empty().add(b.clone()), b);
    assert_eq!(b.clone().add(Layer::empty()), b);
    assert_eq!(a.add_by_ref(&b), sum);
    let mut c = a.clone();
    c.add_assign(b.clone());
    assert_eq!(c, sum);
    let mut d = Layer::empty();
    d.add_assign(a.clone());
    d.add_assign(Layer::empty());
    d.add_assign_by_ref(&Layer::empty());
    assert_eq!(d, a);
    d.add_assign_by_ref(&b);
    assert_eq!(d, sum);
}

#[test]
fn ordered_cursor_walks_and_seeks() {
    let data = layer(vec![((1, 1), 1), ((1, 2), 1), ((3, 1), 1), ((7, 1), 1), ((7, 9), 1)]);
    let mut cursor = data.cursor();
    assert_eq!(cursor.keys(), 3);
    assert_eq!(cursor.key(), &1);
    assert_eq!(cursor.child.keys(), 2);
    cursor.step();
    assert_eq!(cursor.key(), &3);
    assert_eq!(cursor.values().key(), (&1, &1));
    cursor.seek(&4);
    assert_eq!(cursor.key(), &7);
    assert_eq!(cursor.child.keys(), 2);
    cursor.rewind();
    cursor.seek_with(|key| *key < 3);
    assert_eq!(cursor.key(), &3);
    assert_eq!(cursor.last_key(), Some(&7));
    cursor.seek(&100);
    assert!(!cursor.valid());
    assert_eq!(cursor.values().keys(), 0);
    cursor.reposition(2, 3);
    assert_eq!(cursor.key(), &7);
    cursor.step();
    cursor.step();
    assert!(!cursor.valid());
    let empty = data.cursor_from(2, 1);
    assert_eq!(empty.keys(), 0);
    assert_eq!(empty.last_key(), None);
}

#[test]
fn layer_comes_apart_and_together() {
    let data = layer(vec![((1, 1), 1), ((1, 2), 1), ((3, 1), 1)]);
    let (keys, offs, vals) = data.clone().into_parts();
    assert_eq!(keys, vec![1, 3]);
    assert_eq!(offs, vec![0, 2, 3]);
    assert_eq!(vals, column(vec![1, 2, 1], vec![1, 1, 1]));
    assert_eq!(Layer::from_parts(keys, offs, vals), data);
}

#[test]
fn cursor_copy_stands_where_the_cursor_stands() {
    let data = layer(vec![((1, 1), 1), ((1, 2), 1), ((3, 1), 1), ((7, 1), 1)]);
    let mut cursor = data.cursor();
    cursor.step();
    let mut copy = cursor.copy();
    assert_eq!(copy.key(), &3);
    assert_eq!(copy.values().copy().key(), (&1, &1));
    // the copy moves by itself
    copy.step();
    assert_eq!(copy.key(), &7);
    assert_eq!(cursor.key(), &3);
}

#[test]
fn a_zset_has_one_layer() {
    // built in three ways, the same Z-set is the same layer
    let pushed = layer(vec![((2, 1), 1), ((1, 5), 2), ((1, 5), 1), ((4, 4), 1), ((4, 4), -1)]);
    let merged = layer(vec![((1, 5), 3)]).merge(&layer(vec![((2, 1), 1)]));
    let mut builder = Builder::new();
    builder.push_tuple((1, (5, 3)));
    builder.push_tuple((2, (1, 1)));
    let built = builder.done();
    assert_eq!(pushed, merged);
    assert_eq!(pushed, built);
}

#[test]
fn merge_step_copies_all_keys_before_the_other_key() {
    let a = layer((0..10).map(|n| ((n, 0), 1)).collect());
    let b = layer(vec![((7, 0), 1), ((20, 0), 1)]);
    let mut builder = Builder::with_capacity_for(&a, &b);
    let (mut lower1, mut lower2) = (0, 0);
    builder.merge_step((&a, &mut lower1, 10), (&b, &mut lower2, 2));
    assert_eq!((lower1, lower2), (7, 0));
    // no more than the limit of one step
    let long = layer((0..2500).map(|n| ((n, 0), 1)).collect());
    let far = layer(vec![((5000, 0), 1)]);
    let mut builder = Builder::with_capacity_for(&long, &far);
    let (mut lower1, mut lower2) = (0, 0);
    builder.merge_step((&long, &mut lower1, 2500), (&far, &mut lower2, 1));
    assert_eq!((lower1, lower2), (MERGE_STRIDE, 0));
    builder.merge_step((&long, &mut lower1, 2500), (&far, &mut lower2, 1));
    builder.merge_step((&long, &mut lower1, 2500), (&far, &mut lower2, 1));
    assert_eq!((lower1, lower2), (2500, 0));
}

#[test]
fn with_key_takes_a_key_before_a_discarded_one() {
    let mut builder = Builder::new();
    builder.with_key(9, |vals| vals);
    assert!(builder.keys.is_empty());
    assert_eq!(builder.offs, vec![0]);
    builder.with_key(1, |mut vals| {
        vals.push((1, 1));
        vals
    });
    builder.with_key(5, |vals| vals);
    // 3 lies between the last key kept and the key discarded
    builder.with_key(3, |mut vals| {
        vals.push((2, 2));
        vals
    });
    assert_eq!(builder.done().to_tuples(), vec![((1, 1), 1), ((3, 2), 2)]);
}
