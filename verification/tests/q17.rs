use dbsp::nexmark::queries::q17::{
    aggregate, changes, days_written, decode, encode, index_bids, q17, render, AuctionStats, Bid,
    Q17Output, Q17,
};
use dbsp::trace::ord::OrdIndexedZSet;

fn bids(batch: Vec<(u64, u64, usize)>) -> Vec<(Bid, isize)> {
    batch
        .into_iter()
        .map(|(auction, date_time, price)| {
            (
                Bid {
                    auction,
                    date_time,
                    price,
                },
                1,
            )
        })
        .collect()
}

fn row(
    auction: u64,
    day: &str,
    stats: (isize, isize, isize, isize, usize, usize, isize, isize),
) -> Q17Output {
    (
        auction,
        String::from(day),
        stats.0,
        stats.1,
        stats.2,
        stats.3,
        stats.4,
        stats.5,
        stats.6,
        stats.7,
    )
}

fn run(batches: Vec<Vec<(u64, u64, usize)>>, expected: Vec<Vec<(Q17Output, isize)>>) {
    let mut query = Q17::new();
    let mut outputs = Vec::new();
    for batch in batches {
        outputs.push(q17(&mut query, &bids(batch)).unwrap());
    }
    assert_eq!(outputs, expected);
}

#[test]
fn single_auction_single_batch() {
    run(
        vec![vec![(1, 0, 100), (1, 10_000, 700), (1, 20_000, 400)]],
        vec![vec![(row(1, "1970-01-01", (3, 3, 0, 0, 100, 700, 400, 1_200)), 1)]],
    );
}

#[test]
fn multiple_auctions_single_batch() {
    run(
        vec![vec![
            (1, 0, 100),
            (2, 5_000, 500),
            (1, 10_000, 700),
            (2, 15_000, 1_500),
            (1, 20_000, 400),
            (2, 25_000, 3_000),
        ]],
        vec![vec![
            (row(1, "1970-01-01", (3, 3, 0, 0, 100, 700, 400, 1_200)), 1),
            (row(2, "1970-01-01", (3, 3, 0, 0, 500, 3_000, 1_666, 5_000)), 1),
        ]],
    );
}

#[test]
fn multiple_auctions_multiple_batches() {
    run(
        vec![
            vec![(1, 0, 100)],
            vec![
                // This batch has an extra bid from the first day (updating one aggregate)
                // and more bids for a second day.
                (1, 1_000 * 60 * 60 * 24 - 1, 10_100),
                (2, 1_000 * 60 * 60 * 24 * 2, 1_000_000),
                (2, 1_000 * 60 * 60 * 24 * 2 + 1_000, 2_000_000),
            ],
        ],
        vec![
            vec![(row(1, "1970-01-01", (1, 1, 0, 0, 100, 100, 100, 100)), 1)],
            vec![
                (row(1, "1970-01-01", (1, 1, 0, 0, 100, 100, 100, 100)), -1),
                (row(1, "1970-01-01", (2, 1, 1, 0, 100, 10_100, 5_100, 10_200)), 1),
                (
                    row(
                        2,
                        "1970-01-03",
                        (2, 0, 0, 2, 1_000_000, 2_000_000, 1_500_000, 3_000_000),
                    ),
                    1,
                ),
            ],
        ],
    );
}

#[test]
fn grouped_aggregation_scenario() {
    let mut query = Q17::new();
    let first = q17(
        &mut query,
        &bids(vec![(1, 0, 100), (1, 10_000, 700), (1, 20_000, 400)]),
    )
    .unwrap();
    assert_eq!(
        first,
        vec![(row(1, "1970-01-01", (3, 3, 0, 0, 100, 700, 400, 1_200)), 1)]
    );
    let second = q17(
        &mut query,
        &bids(vec![
            (1, 86_399_999, 10_100),
            (7, 2 * 86_400_000, 50),
            (7, 2 * 86_400_000 + 1, 150),
        ]),
    )
    .unwrap();
    assert_eq!(
        second,
        vec![
            (row(1, "1970-01-01", (3, 3, 0, 0, 100, 700, 400, 1_200)), -1),
            (row(1, "1970-01-01", (4, 3, 1, 0, 100, 10_100, 2_825, 11_300)), 1),
            (row(7, "1970-01-03", (2, 2, 0, 0, 50, 150, 100, 200)), 1),
        ]
    );
}

#[test]
fn retraction_removes_the_row() {
    let mut query = Q17::new();
    let bid = Bid {
        auction: 3,
        date_time: 5,
        price: 20_000,
    };
    let added = q17(&mut query, &vec![(bid, 1)]).unwrap();
    assert_eq!(
        added,
        vec![(row(3, "1970-01-01", (1, 0, 1, 0, 20_000, 20_000, 20_000, 20_000)), 1)]
    );
    let removed = q17(&mut query, &vec![(bid, -1)]).unwrap();
    assert_eq!(
        removed,
        vec![(row(3, "1970-01-01", (1, 0, 1, 0, 20_000, 20_000, 20_000, 20_000)), -1)]
    );
    assert!(query.table.is_empty());
    assert_eq!(q17(&mut query, &Vec::new()).unwrap(), vec![]);
}

#[test]
fn bid_beyond_the_calendar_is_refused() {
    let mut query = Q17::new();
    let late = Bid {
        auction: 1,
        date_time: u64::MAX,
        price: 1,
    };
    assert!(index_bids(&vec![(late, 1)]).is_none());
    assert!(q17(&mut query, &vec![(late, 1)]).is_none());
    assert!(query.table.is_empty());
    assert_eq!(query.bids.len(), 0);
}

#[test]
fn days_are_written_by_the_calendar() {
    let stats = AuctionStats {
        auction: 9,
        year: 2024,
        ordinal: 60,
        total_bids: 1,
        rank1_bids: 1,
        rank2_bids: 0,
        rank3_bids: 0,
        min_price: 5,
        max_price: 5,
        avg_price: 5,
        sum_price: 5,
    };
    // 2024 is a leap year: its 60th day is the 29th of February
    let written = render(&vec![(stats, 1)]).unwrap();
    assert_eq!(written, vec![(row(9, "2024-02-29", (1, 1, 0, 0, 5, 5, 5, 5)), 1)]);
    // 2023 has no 366th day
    let wrong = AuctionStats {
        year: 2023,
        ordinal: 366,
        ..stats
    };
    assert!(render(&vec![(stats, 1), (wrong, 1)]).is_none());
}

#[test]
fn bids_are_indexed_by_auction_and_day() {
    let batch = index_bids(&bids(vec![
        (1, 86_400_000, 10),
        (1, 86_400_000 + 5, 10),
        (1, 0, 30),
    ]))
    .unwrap();
    assert_eq!(batch.key_count(), 2);
    assert_eq!(batch.len(), 2);
    assert_eq!(batch.layer.keys, vec![encode(1, 1970, 1), encode(1, 1970, 2)]);
    assert_eq!(batch.layer.vals.keys, vec![30, 10]);
    assert_eq!(batch.layer.vals.diffs, vec![1, 2]);
    let table = aggregate(&batch);
    assert_eq!(table.len(), 2);
    assert_eq!((table[0].year, table[0].ordinal, table[0].total_bids), (1970, 1, 1));
    assert_eq!((table[1].year, table[1].ordinal, table[1].total_bids), (1970, 2, 2));
    assert_eq!((table[1].sum_price, table[1].avg_price), (20, 10));
}

#[test]
fn codes_keep_the_order_of_auctions_and_days() {
    assert_eq!(decode(encode(7, 1970, 3)), (7, (1970, 3)));
    assert_eq!(decode(encode(u64::MAX, i32::MIN, u16::MAX)), (u64::MAX, (i32::MIN, u16::MAX)));
    assert_eq!(decode(encode(0, -1, 0)), (0, (-1, 0)));
    assert!(encode(1, 2000, 366) < encode(1, 2001, 1));
    assert!(encode(1, -5, 1) < encode(1, 3, 1));
    assert!(encode(1, 9999, 366) < encode(2, -9999, 1));
}

#[test]
fn changes_are_the_difference_of_two_tables() {
    let base = AuctionStats {
        auction: 1,
        year: 1970,
        ordinal: 1,
        total_bids: 1,
        rank1_bids: 1,
        rank2_bids: 0,
        rank3_bids: 0,
        min_price: 5,
        max_price: 5,
        avg_price: 5,
        sum_price: 5,
    };
    let later = AuctionStats { ordinal: 2, ..base };
    let grown = AuctionStats {
        total_bids: 2,
        ..later
    };
    let other = AuctionStats { auction: 2, ..base };
    assert_eq!(changes(&vec![], &vec![]), vec![]);
    assert_eq!(changes(&vec![base], &vec![base]), vec![]);
    assert_eq!(changes(&vec![base], &vec![]), vec![(base, -1)]);
    assert_eq!(
        changes(&vec![base, later], &vec![base, grown, other]),
        vec![(later, -1), (grown, 1), (other, 1)]
    );
    assert_eq!(
        changes(&vec![later, other], &vec![base, other]),
        vec![(base, 1), (later, -1)]
    );
}

#[test]
fn days_of_a_batch_are_tested_key_by_key() {
    let day = |year: i32, ordinal: u16| ((encode(7, year, ordinal), 10usize), 1isize);
    let good = OrdIndexedZSet::from_tuples((), vec![day(1970, 1), day(2024, 366)]);
    assert!(days_written(&good));
    // the second key is of a day that the year does not have
    let bad = OrdIndexedZSet::from_tuples((), vec![day(1970, 1), day(2023, 366)]);
    assert!(!days_written(&bad));
    // a bid that is taken back leaves no key, whatever its day
    let gone = OrdIndexedZSet::from_tuples(
        (),
        vec![day(2023, 366), ((encode(7, 2023, 366), 10usize), -1isize)],
    );
    assert!(days_written(&gone));
    assert!(days_written(&index_bids(&bids(vec![(1, 0, 100), (2, 86_400_000, 5)])).unwrap()));
}
