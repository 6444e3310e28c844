use dbsp::algebra::{AddByRef, GroupValue, HasZero, MonoidValue, NegByRef, NumEntries};
use dbsp::time::{Antichain, Lattice, Timestamp};
use dbsp::trace::ord::indexed_zset_batch::OrdIndexedZSetBuilder;
use dbsp::trace::ord::key_batch::{OrdKeyBuilder, OrdKeyMerger};
use dbsp::trace::ord::merge_batcher::{indexed_zset, zset, zset_set};
use dbsp::trace::ord::MergeBatcher;
use dbsp::trace::ord::zset_batch::OrdZSet;
use dbsp::trace::ord::{OrdIndexedZSet, OrdKeyBatch};

type Batch = OrdKeyBatch<u32, u32, i64>;

fn batch(time: u32, tuples: Vec<(u32, i64)>) -> Batch {
    OrdKeyBatch::from_tuples(time, tuples)
}

/// The tuples of a batch: key, time and weight.
fn tuples(batch: &Batch) -> Vec<((u32, u32), i64)> {
    batch.layer.to_tuples()
}

#[test]
fn weights_wrap_around() {
    assert_eq!(<i32 as MonoidValue>::zero(), 0);
    assert!(MonoidValue::is_zero(&0i64));
    assert!(!MonoidValue::is_zero(&-1isize));
    assert_eq!(MonoidValue::add_by_ref(&2i32, &3), 5);
    assert_eq!(MonoidValue::add_by_ref(&i32::MAX, &1), i32::MIN);
    assert_eq!(MonoidValue::add_by_ref(&i64::MIN, &-1), i64::MAX);
    let mut weight = isize::MAX;
    MonoidValue::add_assign_by_ref(&mut weight, &2);
    assert_eq!(weight, isize::MIN + 1);
    assert_eq!(GroupValue::neg_by_ref(&5i32), -5);
    assert_eq!(GroupValue::neg_by_ref(&i32::MIN), i32::MIN);
    assert_eq!(GroupValue::neg_by_ref(&0i64), 0);
    assert_eq!(GroupValue::neg_by_ref(&-7isize), 7);
}

#[test]
fn scalars_are_stream_values() {
    assert_eq!(<i64 as HasZero>::zero(), 0);
    assert!(HasZero::is_zero(&0i32));
    assert_eq!(HasZero::duplicate(&7isize), 7);
    assert_eq!(AddByRef::add_by_ref(&1i32, &2), 3);
    assert_eq!(AddByRef::plus(i64::MAX, 1), i64::MIN);
    let mut value = 40isize;
    AddByRef::add_assign_by_ref(&mut value, &2);
    assert_eq!(value, 42);
    assert_eq!(NegByRef::neg_by_ref(&3i32), -3);
    assert_eq!(NegByRef::neg(-3i64), 3);
    assert_eq!(5i32.num_entries_shallow(), 1);
    assert_eq!(5isize.num_entries_deep(), 1);
}

#[test]
fn unit_time_is_a_single_point() {
    assert!(().less_equal(&()));
    assert_eq!(().meet(&()), ());
    assert_eq!(().join(&()), ());
    assert_eq!(<() as Timestamp>::clock_start(), ());
    assert_eq!(().advance(0), ());
    assert_eq!(().epoch_end(1), ());
    assert_eq!(().recede(1), ());
}

#[test]
fn counting_clock() {
    assert_eq!(<u32 as Timestamp>::clock_start(), 0);
    assert_eq!(5u32.advance(0), 6);
    assert_eq!(5u32.advance(1), 5);
    assert_eq!(u32::MAX.advance(0), u32::MAX);
    assert_eq!(5u32.recede(0), 4);
    assert_eq!(0u32.recede(0), 0);
    assert_eq!(5u32.recede(2), 5);
    assert_eq!(5u32.epoch_end(0), u32::MAX);
    assert_eq!(5u32.copy_time(), 5);
    assert!(3u32.less_equal(&3));
    assert!(!4u32.less_equal(&3));
    assert_eq!(3u32.meet(&7), 3);
    assert_eq!(3u32.join(&7), 7);
    let mut time = 9u32;
    time.meet_assign(&4);
    assert_eq!(time, 4);
    time.meet_assign(&6);
    assert_eq!(time, 4);
}

#[test]
fn antichain_keeps_the_least_times() {
    let mut antichain: Antichain<u32> = Antichain::new();
    assert!(!antichain.less_equal(&0));
    assert!(antichain.insert(5));
    assert!(!antichain.insert(7));
    assert_eq!(antichain.elements(), &vec![5]);
    assert!(antichain.insert(3));
    assert_eq!(antichain.elements, vec![3]);
    assert!(antichain.less_equal(&3));
    assert!(antichain.less_equal(&4));
    assert!(!antichain.less_equal(&2));

    let a = Antichain::from_elem(4u32);
    let b = Antichain::from_elem(6u32);
    assert_eq!(a.meet(&b).elements, vec![4]);
    assert_eq!(a.join(&b).elements, vec![6]);
    assert_eq!(a.meet(&Antichain::new()).elements, vec![4]);
    assert!(a.join(&Antichain::new()).elements.is_empty());
    assert_eq!(a.copy().elements, vec![4]);
}

#[test]
fn batch_from_tuples_and_builder() {
    let built = batch(3, vec![(5, 1), (2, 2), (5, 4), (9, 0), (7, 1), (7, -1)]);
    assert_eq!(tuples(&built), vec![((2, 3), 2), ((5, 3), 5)]);
    assert_eq!(built.key_count(), 2);
    assert_eq!(built.len(), 2);
    assert!(!built.is_empty());
    assert_eq!(built.lower().elements, vec![3]);
    assert_eq!(built.upper().elements, vec![4]);
    assert_eq!(batch(3, vec![(1, 1)]), OrdKeyBatch::from_keys(3, vec![(1, 1)]).copy());

    let mut builder: OrdKeyBuilder<u32, u32, i64> = OrdKeyBuilder::with_capacity(3, 2);
    builder.reserve(4);
    builder.push((2, 2));
    builder.push((5, 1));
    builder.push((5, 4));
    assert_eq!(tuples(&builder.done()), tuples(&built));

    // at the last tick of the clock nothing lies beyond the batch
    let last = OrdKeyBuilder::<u32, u32, i64>::new_builder(u32::MAX).done();
    assert!(last.is_empty());
    assert_eq!(last.lower.elements, vec![u32::MAX]);
    assert!(last.upper.elements.is_empty());
    assert!(Batch::empty(0).is_empty());
}

#[test]
fn batch_merge_adds_up_times() {
    let a = batch(1, vec![(1, 1), (2, 1), (3, 1)]);
    let b = batch(2, vec![(2, 1), (3, -1)]);
    let c = batch(1, vec![(3, -1), (4, 1)]);
    let ab = a.merge(&b);
    assert_eq!(
        tuples(&ab),
        vec![((1, 1), 1), ((2, 1), 1), ((2, 2), 1), ((3, 1), 1), ((3, 2), -1)]
    );
    assert_eq!(ab.lower.elements, vec![1]);
    assert_eq!(ab.upper.elements, vec![3]);
    assert_eq!(tuples(&ab), tuples(&b.merge(&a)));
    let abc = ab.merge(&c);
    assert_eq!(
        tuples(&abc),
        vec![((1, 1), 1), ((2, 1), 1), ((2, 2), 1), ((3, 2), -1), ((4, 1), 1)]
    );
    assert_eq!(tuples(&a.merge(&Batch::empty(1))), tuples(&a));
    assert_eq!(tuples(&abc), tuples(&a.add_by_ref(&b).plus(c)));
}

#[test]
fn merger_works_within_its_fuel() {
    let a = batch(1, (0..5000).map(|n| (2 * n, 1)).collect());
    let b = batch(1, (0..10).map(|n| (2 * n + 1, 1)).collect());
    let mut merger: OrdKeyMerger<u32, u32, i64> = a.begin_merge(&b);

    // without fuel nothing is done
    let mut fuel = 0;
    merger.work(&a, &b, &mut fuel);
    assert_eq!((merger.lower1, merger.lower2, fuel), (0, 0, 0));

    // each step writes one tuple, until the fuel is used up
    let mut fuel = 4;
    merger.work(&a, &b, &mut fuel);
    assert_eq!((merger.lower1, merger.lower2, fuel), (2, 2, 0));

    // the second batch runs out; the first is then copied, 1000 keys at least
    let mut fuel = 20;
    merger.work(&a, &b, &mut fuel);
    assert_eq!(merger.lower2, 10);
    assert_eq!(merger.lower1, 10 + 1000);
    assert_eq!(fuel, 20 - 16 - 1000);

    // with much fuel, as many keys as there is fuel
    let mut fuel = 2000;
    merger.work(&a, &b, &mut fuel);
    assert_eq!((merger.lower1, fuel), (3010, 0));
    let mut fuel = isize::MAX;
    merger.work(&a, &b, &mut fuel);
    assert_eq!(merger.lower1, 5000);
    assert_eq!(fuel, isize::MAX - 1990);

    let merged = merger.done(&a, &b);
    assert_eq!(merged.key_count(), 5010);
    assert_eq!(tuples(&merged), tuples(&a.merge(&b)));
}

#[test]
fn recede_to_meets_the_times_with_the_frontier() {
    let mut timed = batch(1, vec![(1, 1), (2, 1), (3, 1)])
        .merge(&batch(5, vec![(1, 1), (2, -1), (4, 1)]))
        .merge(&batch(9, vec![(1, -2), (4, 1)]));
    let before = tuples(&timed);
    assert_eq!(before.len(), 8);
    let (lower, upper) = (timed.lower.elements.clone(), timed.upper.elements.clone());
    assert_eq!((lower.clone(), upper.clone()), (vec![1], vec![10]));

    // a frontier behind the batch changes nothing
    timed.recede_to(&10);
    assert_eq!(tuples(&timed), before);
    timed.recede_to(&100);
    assert_eq!(tuples(&timed), before);

    // times behind 5 become 5
    timed.recede_to(&5);
    assert_eq!(
        tuples(&timed),
        vec![((1, 1), 1), ((1, 5), -1), ((2, 1), 1), ((2, 5), -1), ((3, 1), 1), ((4, 5), 2)]
    );
    assert_eq!((timed.lower.elements.clone(), timed.upper.elements.clone()), (lower, upper));

    // all times become 1: the weights of a key add up, and keys may vanish
    timed.do_recede_to(&1);
    assert_eq!(tuples(&timed), vec![((3, 1), 1), ((4, 1), 2)]);
    assert_eq!(timed.layer.offs, vec![0, 1, 2]);

    // every time t is met with the frontier, and the sum of each key stays
    let mut spread = batch(2, vec![(1, 1)]).merge(&batch(8, vec![(1, 1)]));
    spread.recede_to(&4);
    assert_eq!(tuples(&spread), vec![((1, 2), 1), ((1, 4), 1)]);
    spread.recede_to(&0);
    assert_eq!(tuples(&spread), vec![((1, 0), 2)]);
}

#[test]
fn batch_cursor_folds_times() {
    let timed = batch(1, vec![(1, 1), (2, 1)])
        .merge(&batch(5, vec![(1, 10)]))
        .merge(&batch(9, vec![(1, 100), (3, 1)]));
    let mut cursor = timed.cursor();
    assert!(cursor.key_valid());
    assert!(cursor.val_valid());
    assert_eq!(cursor.key(), &1);
    assert_eq!(cursor.val(), &());
    assert_eq!(cursor.fold_times(0, |sum, _time, weight| sum + weight), 111);
    assert_eq!(
        cursor.fold_times(Vec::new(), |mut times, time, _weight| {
            times.push(*time);
            times
        }),
        vec![1, 5, 9]
    );
    assert_eq!(cursor.fold_times_through(&5, 0, |sum, _time, weight| sum + weight), 11);
    assert_eq!(cursor.fold_times_through(&0, 7, |sum, _time, weight| sum + weight), 7);
    cursor.step_val();
    assert!(!cursor.val_valid());
    cursor.rewind_vals();
    cursor.seek_val(&());
    cursor.seek_val_with(|_| true);
    assert!(cursor.val_valid());
    cursor.seek_val_with(|_| false);
    assert!(!cursor.val_valid());
    cursor.step_key();
    assert!(cursor.val_valid());
    assert_eq!(cursor.key(), &2);
    cursor.seek_key(&3);
    assert_eq!(cursor.key(), &3);
    assert_eq!(cursor.weight(), 1);
    assert_eq!(cursor.last_key(), Some(&3));
    cursor.step_key();
    assert!(!cursor.key_valid());
    cursor.rewind_keys();
    assert_eq!(cursor.key(), &1);
}

#[test]
fn batch_consumer_hands_out_keys_and_values() {
    let timed = batch(1, vec![(1, 1), (2, 1)]).merge(&batch(5, vec![(1, 10), (3, 3)]));
    let mut consumer = timed.consumer();
    assert!(consumer.key_valid());
    assert_eq!(consumer.peek_key(), &1);
    {
        let (key, mut values) = consumer.next_key();
        assert_eq!(key, 1);
        assert_eq!(values.remaining_values(), 2);
        assert_eq!(values.next_value(), ((), 1, 1));
        assert!(values.value_valid());
        assert_eq!(values.next_value(), ((), 10, 5));
        assert!(!values.value_valid());
        assert_eq!(values.remaining_values(), 0);
    }
    consumer.seek_key(&3);
    assert_eq!(consumer.peek_key(), &3);
    {
        let (key, mut values) = consumer.next_key();
        assert_eq!((key, values.next_value()), (3, ((), 3, 5)));
    }
    assert!(!consumer.key_valid());
    consumer.seek_key(&9);
    assert!(!consumer.key_valid());
}

#[test]
fn zset_algebra() {
    let a: OrdZSet<u32, i64> = OrdZSet::from_tuples((), vec![(3, 1), (1, 2), (3, 4), (2, 0)]);
    assert_eq!(a.layer.keys, vec![1, 3]);
    assert_eq!(a.layer.diffs, vec![2, 5]);
    assert_eq!((a.key_count(), a.len(), a.is_empty()), (2, 2, false));
    assert_eq!((a.num_entries_shallow(), a.num_entries_deep()), (2, 2));
    let b = OrdZSet::from_keys((), vec![(3, -5), (4, 1)]);
    let sum = OrdZSet::from_tuples((), vec![(1, 2), (4, 1)]);
    assert_eq!(a.merge(&b), sum);
    assert_eq!(b.merge(&a), sum);
    assert_eq!(a.add_by_ref(&b), sum);
    assert_eq!(a.clone().plus(b.clone()), sum);
    assert_eq!(OrdZSet::zero().plus(b.clone()), b);
    assert_eq!(b.clone().plus(OrdZSet::zero()), b);
    let mut c = a.copy();
    c.add_assign_by_ref(&OrdZSet::empty());
    assert_eq!(c, a);
    c.add_assign_by_ref(&b);
    assert_eq!(c, sum);
    assert_eq!(a.neg_by_ref(), OrdZSet::from_tuples((), vec![(1, -2), (3, -5)]));
    assert_eq!(a.clone().neg().plus(a.duplicate()), OrdZSet::zero());
    assert!(OrdZSet::<u32, i64>::zero().is_zero());
    assert!(!a.is_zero());

    let mut cursor = a.cursor();
    assert!(cursor.key_valid() && cursor.val_valid());
    assert_eq!((cursor.key(), cursor.val(), cursor.weight()), (&1, &(), 2));
    cursor.step_val();
    assert!(!cursor.val_valid());
    cursor.step_key();
    assert_eq!((cursor.key(), cursor.weight()), (&3, 5));
    cursor.step_key();
    assert!(!cursor.key_valid());
    cursor.rewind_keys();
    assert_eq!(cursor.key(), &1);
}

#[test]
fn indexed_zset_algebra() {
    let a: OrdIndexedZSet<u32, u32, i64> =
        OrdIndexedZSet::from_tuples((), vec![((2, 1), 1), ((1, 5), 2), ((1, 4), 1), ((2, 1), 1)]);
    assert_eq!(a.layer.to_tuples(), vec![((1, 4), 1), ((1, 5), 2), ((2, 1), 2)]);
    assert_eq!((a.key_count(), a.len(), a.is_empty()), (2, 3, false));
    assert_eq!((a.num_entries_shallow(), a.num_entries_deep()), (2, 3));
    let b = OrdIndexedZSet::from_tuples((), vec![((1, 5), -2), ((3, 3), 3)]);
    let sum = OrdIndexedZSet::from_tuples((), vec![((1, 4), 1), ((2, 1), 2), ((3, 3), 3)]);
    assert_eq!(a.merge(&b), sum);
    assert_eq!(a.add_by_ref(&b), b.add_by_ref(&a));
    assert_eq!(a.clone().plus(b.clone()), sum);
    assert_eq!(OrdIndexedZSet::zero().plus(a.clone()), a);
    assert_eq!(a.clone().plus(OrdIndexedZSet::empty()), a);
    let mut c = a.copy();
    c.add_assign_by_ref(&OrdIndexedZSet::zero());
    c.add_assign_by_ref(&b);
    assert_eq!(c, sum);
    assert_eq!(a.neg_by_ref().plus(a.duplicate()), OrdIndexedZSet::zero());
    assert_eq!(a.clone().neg(), a.neg_by_ref());
    assert!(a.neg_by_ref().plus(a.clone()).is_zero());

    let mut cursor = a.cursor();
    assert_eq!((cursor.key(), cursor.val(), cursor.weight()), (&1, &4, 1));
    cursor.step_val();
    assert_eq!((cursor.val(), cursor.weight()), (&5, 2));
    cursor.step_val();
    assert!(!cursor.val_valid());
    cursor.step_key();
    assert!(cursor.key_valid() && cursor.val_valid());
    assert_eq!((cursor.key(), cursor.val()), (&2, &1));
    cursor.step_key();
    assert!(!cursor.key_valid());

    let mut builder = OrdIndexedZSetBuilder::new_builder(());
    builder.push(((1, 4), 1));
    builder.push(((1, 5), 2));
    builder.push(((2, 1), 2));
    assert_eq!(builder.done(), a);
    assert!(OrdIndexedZSetBuilder::<u32, u32, i64>::with_capacity((), 3).done().is_empty());
}

#[test]
fn batcher_takes_tuples_in_any_order() {
    let mut batcher = MergeBatcher::<OrdZSet<u32, i64>, ()>::new_batcher(());
    let mut first = vec![(3, 1), (1, 1), (3, 1)];
    batcher.push_batch(&mut first);
    assert!(first.is_empty());
    batcher.push_batch(&mut first);
    let mut second = vec![(2, 5), (1, -1)];
    batcher.push_batch(&mut second);
    assert_eq!(batcher.seal(), OrdZSet::from_tuples((), vec![(2, 5), (3, 2)]));
    assert!(MergeBatcher::<OrdZSet<u32, i64>, ()>::new_batcher(()).seal().is_empty());

    let mut indexed = MergeBatcher::<OrdIndexedZSet<u32, u32, i64>, ()>::new_batcher(());
    indexed.push_batch(&mut vec![((2, 2), 1), ((1, 1), 1)]);
    indexed.push_batch(&mut vec![((2, 2), -1), ((1, 0), 1)]);
    assert_eq!(
        indexed.seal(),
        OrdIndexedZSet::from_tuples((), vec![((1, 0), 1), ((1, 1), 1)])
    );

    let mut timed = MergeBatcher::<Batch, u32>::new_batcher(4);
    timed.push_batch(&mut vec![(9, 1), (8, 1)]);
    timed.push_batch(&mut vec![(9, 1)]);
    assert_eq!(tuples(&timed.seal()), vec![((8, 4), 1), ((9, 4), 2)]);
}

#[test]
fn zset_constructors() {
    assert_eq!(
        zset(vec![(6, 2), (5, 1), (6, 1)]),
        OrdZSet::from_tuples((), vec![(5i32, 1i32), (6, 3)])
    );
    assert_eq!(zset(vec![(1u8, 0i64)]), OrdZSet::empty());
    assert_eq!(
        zset_set(vec![3u32, 1, 3]),
        OrdZSet::from_tuples((), vec![(1, 1), (3, 2)])
    );
    assert_eq!(
        indexed_zset(vec![((2u32, 7u32), 1i64), ((1, 9), 2), ((1, 8), 3)]).layer.to_tuples(),
        vec![((1, 8), 3), ((1, 9), 2), ((2, 7), 1)]
    );
}

#[test]
fn merger_copies_the_rest_once_one_side_is_used_up() {
    let a = batch(1, vec![(1, 1)]);
    let b = batch(1, vec![(2, 1), (3, 1), (4, 1), (5, 1)]);
    let mut merger: OrdKeyMerger<u32, u32, i64> = a.begin_merge(&b);
    let mut fuel = 2;
    merger.work(&a, &b, &mut fuel);
    // one step uses up the first side; the four keys of the other are copied at once
    assert_eq!((merger.lower1, merger.lower2, fuel), (1, 4, -3));
    let merged = merger.done(&a, &b);
    assert_eq!(
        tuples(&merged),
        vec![((1, 1), 1), ((2, 1), 1), ((3, 1), 1), ((4, 1), 1), ((5, 1), 1)]
    );

    // fuel of both lengths uses up both sides
    let a = batch(1, (0..30).map(|n| (3 * n, 1)).collect());
    let b = batch(2, (0..20).map(|n| (2 * n, -1)).collect());
    let mut merger: OrdKeyMerger<u32, u32, i64> = a.begin_merge(&b);
    let mut fuel = (a.len() + b.len()) as isize;
    merger.work(&a, &b, &mut fuel);
    assert_eq!((merger.lower1, merger.lower2), (30, 20));
    assert_eq!(fuel, 0);
}

fn times_of(batch: &Batch) -> Vec<u32> {
    batch.layer.vals.keys.clone()
}

#[test]
fn times_of_a_batch_lie_in_its_bounds() {
    let merged = batch(3, vec![(1, 1), (2, 1)]).merge(&batch(7, vec![(2, 1), (5, -1)]));
    assert_eq!((merged.lower.elements.clone(), merged.upper.elements.clone()), (vec![3], vec![8]));
    assert!(times_of(&merged).iter().all(|t| 3 <= *t && *t < 8));
    // taken back to a frontier, every time is at or before the frontier and before the
    // upper bound; the lower bound stays, though times may now lie below it
    let mut receded = merged.clone();
    receded.recede_to(&5);
    assert_eq!(tuples(&receded), vec![((1, 3), 1), ((2, 3), 1), ((2, 5), 1), ((5, 5), -1)]);
    receded.recede_to(&2);
    assert!(times_of(&receded).iter().all(|t| *t <= 2 && *t < 8));
    assert_eq!(receded.lower.elements, vec![3]);
    // a time that has no later tick has no upper bound
    let last = batch(u32::MAX, vec![(1, 1)]);
    assert!(last.upper.elements.is_empty());
}

#[test]
fn batch_of_the_pairs_of_a_batch_is_the_batch() {
    let first = OrdKeyBatch::from_keys(3u32, vec![(1u32, -1i64), (2, -2), (1, 1), (7, 0), (5, 4)]);
    let pairs = first.to_keys();
    assert_eq!(pairs, vec![(2, -2), (5, 4)]);
    let second = OrdKeyBatch::from_keys(3u32, pairs.clone());
    assert_eq!(second, first);
    assert_eq!(second.to_keys(), pairs);
    // over several times the weights of a key are added up
    let spread = batch(1, vec![(1, 1), (2, 1)]).merge(&batch(2, vec![(1, 2), (2, -1)]));
    assert_eq!(spread.to_keys(), vec![(1, 3), (2, 0)]);
    assert!(Batch::empty(0).to_keys().is_empty());
}
