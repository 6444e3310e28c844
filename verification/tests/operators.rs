use dbsp::algebra::{AddByRef, HasZero};
use dbsp::operator::z1::{run_delay, run_nested_delay};
use dbsp::operator::sum::{arrange_inputs, size_of_input};
use dbsp::operator::{Sum, UnaryMinus, Z1Nested, Z1};
use dbsp::trace::ord::zset_batch::OrdZSet;
use std::borrow::Cow;

fn zset(tuples: Vec<(i32, i32)>) -> OrdZSet<i32, i32> {
    OrdZSet::from_tuples((), tuples)
}

#[test]
fn neg_zset_sum() {
    let mut s = <OrdZSet<i32, i32> as HasZero>::zero();
    let mut minus = UnaryMinus::new();

    for _ in 0..100 {
        let res = s.clone();
        s = s.merge(&zset(vec![(5, 1), (6, 2)]));

        let negated = minus.eval(&res);
        let total = negated.add_by_ref(&res);
        assert_eq!(&total, &<OrdZSet<i32, i32> as HasZero>::zero());
    }
}

fn input(value: &OrdZSet<i32, i32>, by_value: bool) -> Cow<'_, OrdZSet<i32, i32>> {
    if by_value {
        Cow::Owned(value.clone())
    } else {
        Cow::Borrowed(value)
    }
}

#[test]
fn sum_zset_sum() {
    // Which of the three sources the sum may consume by value: all of them, all
    // but the first, none.
    let ownership = [
        [true, true, true],
        [false, true, true],
        [false, false, false],
    ];

    for owned in ownership {
        let mut s1 = <OrdZSet<i32, i32> as HasZero>::zero();
        let mut s2 = <OrdZSet<i32, i32> as HasZero>::zero();
        let mut s3 = <OrdZSet<i32, i32> as HasZero>::zero();
        let mut sum = Sum::new();

        for _ in 0..100 {
            let res1 = s1.clone();
            s1 = s1.merge(&zset(vec![(5, 1), (6, 2)]));
            let res2 = s2.clone();
            s2 = s2.merge(&zset(vec![(5, -1)]));
            let res3 = s3.clone();
            s3 = s3.merge(&zset(vec![(6, -1)]));

            // Supply the third source twice to test the handling of aliases.
            let mut inputs = vec![
                input(&res3, false),
                input(&res2, owned[1]),
                input(&res1, owned[0]),
                input(&res3, owned[2]),
            ];
            let total = sum.eval(&mut inputs);
            assert_eq!(&total, &<OrdZSet<i32, i32> as HasZero>::zero());
            assert!(inputs.is_empty());
        }
    }
}

#[test]
fn z1_test() {
    let mut z1 = Z1::new(0);

    let expected_result = vec![0, 1, 2, 0, 4, 5];

    // Test `UnaryOperator` API.
    let mut res = Vec::new();
    z1.clock_start(0);
    res.push(z1.eval(&1));
    res.push(z1.eval(&2));
    res.push(z1.eval(&3));
    z1.clock_end(0);

    z1.clock_start(0);
    res.push(z1.eval_owned(4));
    res.push(z1.eval_owned(5));
    res.push(z1.eval_owned(6));
    z1.clock_end(0);

    assert_eq!(res, expected_result);

    // Test `StrictUnaryOperator` API.
    let mut res = Vec::new();
    z1.clock_start(0);
    res.push(z1.get_output());
    z1.eval_strict(&1);
    res.push(z1.get_output());
    z1.eval_strict(&2);
    res.push(z1.get_output());
    z1.eval_strict(&3);
    z1.clock_end(0);

    z1.clock_start(0);
    res.push(z1.get_output());
    z1.eval_strict_owned(4);
    res.push(z1.get_output());
    z1.eval_strict_owned(5);
    res.push(z1.get_output());
    z1.eval_strict_owned(6);
    z1.clock_end(0);

    assert_eq!(res, expected_result);
}

#[test]
fn z1_nested_test() {
    let mut z1 = Z1Nested::new(0);

    // Test `UnaryOperator` API.

    z1.clock_start(1);

    let mut res = Vec::new();
    z1.clock_start(0);
    res.push(z1.eval_owned(1));
    res.push(z1.eval(&2));
    res.push(z1.eval(&3));
    z1.clock_end(0);
    assert_eq!(res.as_slice(), &[0, 0, 0]);

    let mut res = Vec::new();
    z1.clock_start(0);
    res.push(z1.eval_owned(4));
    res.push(z1.eval_owned(5));
    z1.clock_end(0);
    assert_eq!(res.as_slice(), &[1, 2]);

    let mut res = Vec::new();
    z1.clock_start(0);
    res.push(z1.eval_owned(6));
    res.push(z1.eval_owned(7));
    res.push(z1.eval(&8));
    res.push(z1.eval(&9));
    z1.clock_end(0);
    assert_eq!(res.as_slice(), &[4, 5, 5, 5]);

    z1.clock_end(1);

    // Test `StrictUnaryOperator` API.
    z1.clock_start(1);

    let mut res = Vec::new();
    z1.clock_start(0);
    res.push(z1.get_output());
    z1.eval_strict(&1);
    res.push(z1.get_output());
    z1.eval_strict(&2);
    res.push(z1.get_output());
    z1.eval_strict(&3);
    z1.clock_end(0);
    assert_eq!(res.as_slice(), &[0, 0, 0]);

    let mut res = Vec::new();

    z1.clock_start(0);
    res.push(z1.get_output());
    z1.eval_strict_owned(4);
    res.push(z1.get_output());
    z1.eval_strict_owned(5);
    z1.clock_end(0);

    assert_eq!(res.as_slice(), &[1, 2]);

    let mut res = Vec::new();

    z1.clock_start(0);
    res.push(z1.get_output());
    z1.eval_strict_owned(6);
    res.push(z1.get_output());
    z1.eval_strict_owned(7);
    res.push(z1.get_output());
    z1.eval_strict_owned(8);
    res.push(z1.get_output());
    z1.eval_strict_owned(9);
    z1.clock_end(0);

    assert_eq!(res.as_slice(), &[4, 5, 5, 5]);

    z1.clock_end(1);
}

#[test]
fn z1_returns_to_zero_at_clock_end() {
    let mut z1 = Z1::new(0);
    assert_eq!(z1.name(), "Z^-1");
    assert_eq!(z1.eval_owned(7), 0);
    z1.clock_end(0);
    // the 7 is gone
    assert_eq!(z1.eval_owned(8), 0);
    assert_eq!(z1.eval(&9), 8);
    assert_eq!(z1.get_final_output(), 9);
    assert_eq!(z1.get_output(), 0);
    // a scalar counts as one entry, so the operator is never at a fixed point
    assert!(!z1.fixedpoint(0));
    assert!(z1.fixedpoint(1));
}

#[test]
fn z1_on_batches_reaches_a_fixed_point() {
    let mut z1 = Z1::new(zset(vec![]));
    assert!(!z1.fixedpoint(0));
    assert_eq!(z1.get_output(), zset(vec![]));
    z1.eval_strict_owned(zset(vec![(1, 1)]));
    // the output was empty, but a batch is held
    assert!(!z1.fixedpoint(0));
    assert_eq!(z1.get_output(), zset(vec![(1, 1)]));
    z1.eval_strict(&zset(vec![]));
    assert!(!z1.fixedpoint(0));
    assert_eq!(z1.get_output(), zset(vec![]));
    z1.eval_strict_owned(zset(vec![]));
    assert!(z1.fixedpoint(0));
    z1.clock_end(0);
    assert!(!z1.fixedpoint(0));
}

#[test]
fn delay_shifts_its_input_by_one_tick() {
    let mut z1 = Z1::new(0);
    assert_eq!(run_delay(&mut z1, vec![5, 6, 7, 8]), vec![0, 5, 6, 7]);
    assert_eq!(run_delay(&mut z1, vec![]), vec![]);
    assert_eq!(run_delay(&mut z1, vec![1]), vec![8]);
    z1.clock_end(0);
    assert_eq!(run_delay(&mut z1, vec![2, 3]), vec![0, 2]);
}

#[test]
fn z1_nested_repeats_the_last_value() {
    let mut z1 = Z1Nested::new(0);
    assert_eq!(z1.name(), "Z^-1 (nested)");
    z1.clock_start(1);
    z1.clock_start(0);
    assert_eq!(z1.eval_owned(3), 0);
    assert_eq!(z1.eval_owned(5), 0);
    assert!(!z1.fixedpoint(0));
    z1.clock_end(0);
    z1.clock_start(0);
    assert_eq!(z1.eval_owned(0), 3);
    // behind the stored stream the last value is read again and again
    for _ in 0..5 {
        assert_eq!(z1.eval_owned(0), 5);
    }
    assert!(!z1.fixedpoint(0));
    assert!(!z1.fixedpoint(1));
    z1.clock_end(0);
    // the stream written was all zeros from the second value on
    z1.clock_start(0);
    assert_eq!(z1.eval_owned(1), 0);
    assert_eq!(z1.eval_owned(0), 0);
    assert!(z1.fixedpoint(0));
    // the end of the outer clock forgets the stream
    z1.clock_end(1);
    z1.clock_start(1);
    z1.clock_start(0);
    assert_eq!(z1.get_final_output(), 0);
    z1.eval_strict_owned(4);
    z1.reset();
    assert_eq!(z1.eval(&1), 0);
}

#[test]
fn sum_adds_an_aliased_stream_twice() {
    let s1 = zset(vec![(1, 1), (2, 1), (3, 1), (4, 1)]);
    let s2 = zset(vec![(2, 10), (5, 10)]);
    let s3 = zset(vec![(1, 100)]);
    let expected = zset(vec![(1, 201), (2, 11), (3, 1), (4, 1), (5, 10)]);
    let mut sum = Sum::new();
    assert_eq!(sum.name(), "Sum");
    assert!(sum.fixedpoint(0));
    for owned in [false, true] {
        let mut inputs = vec![
            input(&s3, owned),
            input(&s2, owned),
            input(&s1, owned),
            input(&s3, false),
        ];
        assert_eq!(sum.eval(&mut inputs), expected);
    }
    let mut none: Vec<Cow<'_, OrdZSet<i32, i32>>> = Vec::new();
    assert_eq!(sum.eval(&mut none), zset(vec![]));
    let mut scalars = vec![Cow::Owned(1i64), Cow::Owned(i64::MAX), Cow::Borrowed(&0)];
    assert_eq!(Sum::new().eval(&mut scalars), i64::MIN);
}

#[test]
fn unary_minus_negates() {
    let mut minus = UnaryMinus::new();
    assert_eq!(minus.name(), "UnaryMinus");
    assert!(minus.fixedpoint(0));
    assert_eq!(minus.eval(&5), -5);
    assert_eq!(minus.eval_owned(i32::MIN), i32::MIN);
    let mut batches = UnaryMinus::new();
    assert_eq!(
        batches.eval_owned(zset(vec![(1, 2), (3, -4)])),
        zset(vec![(1, -2), (3, 4)])
    );
}

#[test]
fn nested_delay_gives_out_the_stream_of_the_tick_before() {
    let mut z1 = Z1Nested::new(0);
    z1.clock_start(1);
    z1.clock_start(0);
    assert_eq!(run_nested_delay(&mut z1, vec![1, 2, 3]), vec![0, 0, 0]);
    z1.clock_end(0);
    z1.clock_start(0);
    assert_eq!(run_nested_delay(&mut z1, vec![4, 5]), vec![1, 2]);
    z1.clock_end(0);
    z1.clock_start(0);
    // read beyond its end, the stored stream repeats its last value
    assert_eq!(run_nested_delay(&mut z1, vec![6, 7, 8, 9]), vec![4, 5, 5, 5]);
    z1.clock_end(0);
    z1.clock_start(0);
    assert_eq!(run_nested_delay(&mut z1, vec![]), vec![]);
    z1.clock_end(0);
    z1.clock_start(0);
    assert_eq!(run_nested_delay(&mut z1, vec![1]), vec![0]);
    z1.clock_end(0);
    z1.clock_end(1);
    z1.clock_start(1);
    z1.clock_start(0);
    assert_eq!(run_nested_delay(&mut z1, vec![2, 2]), vec![0, 0]);
}

#[test]
fn inputs_are_added_up_from_the_largest() {
    let large = zset(vec![(1, 1), (2, 1), (3, 1)]);
    let small = zset(vec![(1, 1)]);
    let middle = zset(vec![(5, 1), (6, 1)]);
    let mut inputs = vec![
        Cow::Borrowed(&large),
        Cow::Owned(small.clone()),
        Cow::Borrowed(&middle),
        Cow::Owned(<OrdZSet<i32, i32> as HasZero>::zero()),
    ];
    arrange_inputs(&mut inputs);
    let sizes: Vec<usize> = inputs.iter().map(size_of_input).collect();
    assert_eq!(sizes, vec![0, 1, 2, 3]);
    assert_eq!(inputs[3].as_ref(), &large);
    let mut sum = Sum::new();
    assert_eq!(
        sum.eval(&mut inputs),
        zset(vec![(1, 2), (2, 1), (3, 1), (5, 1), (6, 1)])
    );
    assert!(inputs.is_empty());
}
