use dbsp::order::{compare, duplicate, duplicate_all, less, same};
use dbsp::trace::consolidation::fill_indices;
use dbsp::trace::consolidation::{sort_by_key, swap_items};
use std::cmp::Ordering;
use dbsp::trace::consolidation::{
    consolidate, consolidate_from, consolidate_paired_slices, consolidate_slice, dedup_starting_at,
    retain_starting_at,
};

#[test]
fn test_consolidate() {
    let test_cases = vec![
        (vec![("a", -1), ("b", -2), ("a", 1)], vec![("b", -2)]),
        (vec![("a", -1), ("b", 0), ("a", 1)], vec![]),
        (vec![("a", 0)], vec![]),
        (vec![("a", 0), ("b", 0)], vec![]),
        (vec![("a", 1), ("b", 1)], vec![("a", 1), ("b", 1)]),
    ];

    for (mut input, output) in test_cases {
        consolidate(&mut input);
        assert_eq!(input, output);
    }
}

#[test]
fn test_consolidate_from_start() {
    let test_cases = vec![
        (vec![("a", -1), ("b", -2), ("a", 1)], vec![("b", -2)]),
        (vec![("a", -1), ("b", 0), ("a", 1)], vec![]),
        (vec![("a", 0)], vec![]),
        (vec![("a", 0), ("b", 0)], vec![]),
        (vec![("a", 1), ("b", 1)], vec![("a", 1), ("b", 1)]),
    ];

    for (mut input, output) in test_cases {
        consolidate_from(&mut input, 0);
        assert_eq!(input, output);
    }
}

#[test]
fn test_consolidate_from() {
    let test_cases = vec![
        (
            vec![("a", -1), ("b", -2), ("a", 1)],
            vec![("a", -1), ("a", 1), ("b", -2)],
        ),
        (
            vec![("a", -1), ("b", 0), ("a", 1)],
            vec![("a", -1), ("a", 1)],
        ),
        (vec![("a", 0)], vec![("a", 0)]),
        (vec![("a", 0), ("b", 0)], vec![("a", 0)]),
        (vec![("a", 1), ("b", 1)], vec![("a", 1), ("b", 1)]),
    ];

    for (mut input, output) in test_cases {
        consolidate_from(&mut input, 1);
        assert_eq!(input, output);
    }
}

#[test]
fn test_consolidate_slice() {
    let test_cases = vec![
        (vec![("a", -1), ("b", -2), ("a", 1)], vec![("b", -2)]),
        (vec![("a", -1), ("b", 0), ("a", 1)], vec![]),
        (vec![("a", 0)], vec![]),
        (vec![("a", 0), ("b", 0)], vec![]),
        (vec![("a", 1), ("b", 1)], vec![("a", 1), ("b", 1)]),
    ];

    for (mut input, output) in test_cases {
        let length = consolidate_slice(&mut input);
        assert_eq!(input[..length], output);
    }
}

#[test]
fn test_consolidate_paired_slices() {
    let test_cases = vec![
        (
            (vec!["a", "b", "a"], vec![-1, -2, 1]),
            (vec!["b"], vec![-2]),
        ),
        ((vec!["a", "b", "a"], vec![-1, 0, 1]), (vec![], vec![])),
        ((vec!["a"], vec![0]), (vec![], vec![])),
        ((vec!["a", "b"], vec![0, 0]), (vec![], vec![])),
        ((vec!["a", "b"], vec![1, 1]), (vec!["a", "b"], vec![1, 1])),
    ];

    let mut indices = Vec::with_capacity(10);
    for ((mut keys, mut values), (output_keys, output_values)) in test_cases {
        let length = consolidate_paired_slices(&mut keys, &mut values, &mut indices);
        assert_eq!(keys[..length], output_keys);
        assert_eq!(values[..length], output_values);
    }
}

#[test]
fn offset_dedup() {
    let test_cases = vec![
        (vec![], 0, vec![]),
        (vec![1, 2, 3, 4], 0, vec![1, 2, 3, 4]),
        (vec![1, 2, 3, 4], 2, vec![1, 2, 3, 4]),
        (vec![1, 2, 3, 4, 4, 4, 4, 4, 4], 3, vec![1, 2, 3, 4]),
        (
            vec![1, 2, 3, 4, 4, 4, 4, 4, 4, 6, 5, 4, 4, 6, 6, 6, 6, 7, 2, 3],
            3,
            vec![1, 2, 3, 4, 6, 5, 4, 6, 7, 2, 3],
        ),
        (
            vec![1, 2, 3, 4, 4, 4, 4, 4, 4, 6, 5, 4, 4, 6, 6, 6, 6, 7, 2, 3],
            5,
            vec![1, 2, 3, 4, 4, 4, 6, 5, 4, 6, 7, 2, 3],
        ),
    ];

    for (mut input, starting_point, output) in test_cases {
        dedup_starting_at(&mut input, starting_point, |a, b| *a == *b);
        assert_eq!(input, output);
    }
}

#[test]
fn offset_retain() {
    let test_cases = vec![
        (vec![], 0, vec![]),
        (
            vec![(1, true), (2, true), (3, true), (4, true)],
            0,
            vec![(1, true), (2, true), (3, true), (4, true)],
        ),
        (
            vec![(1, false), (2, true), (3, true), (4, true)],
            2,
            vec![(1, false), (2, true), (3, true), (4, true)],
        ),
        (
            vec![
                (1, true),
                (2, false),
                (3, false),
                (4, true),
                (5, true),
                (6, false),
                (7, true),
                (8, false),
                (9, false),
            ],
            3,
            vec![
                (1, true),
                (2, false),
                (3, false),
                (4, true),
                (5, true),
                (7, true),
            ],
        ),
    ];

    for (mut input, starting_point, output) in test_cases {
        retain_starting_at(&mut input, starting_point, |(_, cond)| *cond);
        assert_eq!(input, output);
    }
}

#[test]
fn fill_indices() {
    for &length in &[0, 1, 2, 42, 128, 333, 1400, 2352] {
        let mut output = Vec::new();
        fill_indices::fill_indices(length, &mut output);

        let expected: Vec<usize> = (0..length).collect();
        assert_eq!(expected, output);
    }
}

#[test]
fn consolidation_is_idempotent() {
    let mut tuples = vec![(7u32, 1i64), (3, 2), (7, -1), (5, 3), (3, 4), (1, 0), (9, -9)];
    let sum: i64 = tuples.iter().map(|(_, weight)| weight).sum();
    consolidate(&mut tuples);
    assert_eq!(tuples, vec![(3, 6), (5, 3), (9, -9)]);
    assert_eq!(tuples.iter().map(|(_, weight)| weight).sum::<i64>(), sum);
    let once = tuples.clone();
    consolidate(&mut tuples);
    assert_eq!(tuples, once);
    let mut empty: Vec<(u32, i64)> = Vec::new();
    consolidate(&mut empty);
    assert!(empty.is_empty());
}

#[test]
fn consolidate_from_leaves_the_prefix() {
    let mut tuples = vec![(9u32, 1i64), (9, -1), (2, 0), (8, 1), (4, 2), (8, 1), (4, -2)];
    consolidate_from(&mut tuples, 3);
    assert_eq!(tuples, vec![(9, 1), (9, -1), (2, 0), (8, 2)]);
    consolidate_from(&mut tuples, 4);
    assert_eq!(tuples, vec![(9, 1), (9, -1), (2, 0), (8, 2)]);
    consolidate_from(&mut tuples, 1);
    assert_eq!(tuples, vec![(9, 1), (8, 2), (9, -1)]);
}

#[test]
fn consolidate_paired_slices_sorts_both_columns() {
    let mut keys = vec![5u32, 1, 4, 1, 3, 5, 2];
    let mut diffs = vec![1i64, 2, 3, 4, 5, -1, 7];
    let mut scratch = vec![17, 4];
    let length = consolidate_paired_slices(&mut keys, &mut diffs, &mut scratch);
    assert_eq!(length, 4);
    assert_eq!(keys[..length], [1, 2, 3, 4]);
    assert_eq!(diffs[..length], [6, 7, 5, 3]);
    assert_eq!((keys.len(), diffs.len()), (7, 7));
}

#[test]
fn sort_and_swap() {
    let mut pairs = vec![(3u32, 'c'), (1, 'a'), (2, 'b')];
    sort_by_key(&mut pairs);
    assert_eq!(pairs, vec![(1, 'a'), (2, 'b'), (3, 'c')]);
    swap_items(&mut pairs, 2, 0);
    assert_eq!(pairs, vec![(3, 'c'), (2, 'b'), (1, 'a')]);
    swap_items(&mut pairs, 1, 1);
    swap_items(&mut pairs, 1, 2);
    assert_eq!(pairs, vec![(3, 'c'), (1, 'a'), (2, 'b')]);
}

#[test]
fn keys_are_compared_by_their_order() {
    assert!(less(&1, &2));
    assert!(!less(&2, &2));
    assert!(less(&(1, 9), &(2, 0)));
    assert!(same(&"a", &"a"));
    assert!(!same(&3, &4));
    assert_eq!(compare(&1, &2), Ordering::Less);
    assert_eq!(compare(&2, &2), Ordering::Equal);
    assert_eq!(compare(&3, &2), Ordering::Greater);
    assert_eq!(duplicate(&String::from("key")), "key");
    assert_eq!(duplicate_all(&vec![1, 2, 3]), vec![1, 2, 3]);
}
