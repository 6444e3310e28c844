//! Query 17: Auction Statistics Report
//!
//! How many bids on an auction made a day and what is the price?
//! Illustrates an unbounded group aggregation.
//!
//! ```sql
//! SELECT
//!      auction,
//!      DATE_FORMAT(dateTime, 'yyyy-MM-dd') as `day`,
//!      count(*) AS total_bids,
//!      count(*) filter (where price < 10000) AS rank1_bids,
//!      count(*) filter (where price >= 10000 and price < 1000000) AS rank2_bids,
//!      count(*) filter (where price >= 1000000) AS rank3_bids,
//!      min(price) AS min_price,
//!      max(price) AS max_price,
//!      avg(price) AS avg_price,
//!      sum(price) AS sum_price
//! FROM bid
//! GROUP BY auction, DATE_FORMAT(dateTime, 'yyyy-MM-dd');
//! ```

use vstd::prelude::*;
use crate::algebra::GroupValue;
use crate::algebra::MonoidValue;
use crate::trace::ord::indexed_zset_batch::added_indexed;
use crate::order::lemma_integers_lawful;
use crate::trace::layers::ordered::span;
use crate::trace::ord::indexed_zset_batch::OrdIndexedZSet;
use crate::zset::weight_of;
use crate::zset::lemma_weight_push;
use time::format_description::well_known::Iso8601;
use time::Date;
use time::OffsetDateTime;

verus! {

/// A bid: the auction it is made on, the time it is made at, in
/// milliseconds since the start of 1970, and the price offered.
#[derive(Debug, Clone, Copy, PartialEq, Eq, Structural)]
pub struct Bid {
    pub auction: u64,
    pub date_time: u64,
    pub price: usize,
}

/// A day: its year and its number in the year.
pub type OrdinalDate = (i32, u16);

/// What the bids are grouped by: the auction and the day.
pub type AuctionDay = (u64, OrdinalDate);

/// An auction and a day as one number, such that the order of the numbers
/// is the order of the auctions, then of the years, then of the days.
pub type DayCode = u128;

/// The number that stands for an auction and a day.
pub open spec fn code_of(key: AuctionDay) -> DayCode {
    (key.0 * 0x1_0000_0000_0000 + (key.1.0 + 0x8000_0000) * 0x1_0000 + key.1.1) as u128
}

/// The auction and the day that a number stands for.
pub open spec fn key_of_code(code: DayCode) -> AuctionDay {
    (
        ((code / 0x1_0000_0000_0000) % 0x1_0000_0000_0000_0000) as u64,
        ((((code / 0x1_0000) % 0x1_0000_0000) as int - 0x8000_0000) as i32, (code % 0x1_0000) as u16),
    )
}

/// Every auction and day is the one that its number stands for.
pub proof fn lemma_code_round_trip(key: AuctionDay)
    ensures
        key_of_code(code_of(key)) == key,
{
}

/// The number that stands for an auction and a day.
pub fn encode(auction: u64, year: i32, ordinal: u16) -> (code: DayCode)
    ensures
        code == code_of((auction, (year, ordinal))),
{
    let shifted: u128 = (year as i64 + 0x8000_0000) as u128;
    auction as u128 * 0x1_0000_0000_0000 + shifted * 0x1_0000 + ordinal as u128
}

/// The auction and the day that a number stands for.
pub fn decode(code: DayCode) -> (key: AuctionDay)
    ensures
        key == key_of_code(code),
{
    let auction = ((code / 0x1_0000_0000_0000) % 0x1_0000_0000_0000_0000) as u64;
    let shifted = ((code / 0x1_0000) % 0x1_0000_0000) as i64;
    let ordinal = (code % 0x1_0000) as u16;
    (auction, ((shifted - 0x8000_0000) as i32, ordinal))
}

/// The statistics of the bids on one auction on one day.
#[derive(Debug, Clone, Copy, PartialEq, Eq, Structural)]
pub struct AuctionStats {
    pub auction: u64,
    pub year: i32,
    pub ordinal: u16,
    pub total_bids: isize,
    pub rank1_bids: isize,
    pub rank2_bids: isize,
    pub rank3_bids: isize,
    pub min_price: usize,
    pub max_price: usize,
    pub avg_price: isize,
    pub sum_price: isize,
}

/// A row of the report: the auction, the day as text, and the statistics
/// in the order of the query.
pub type Q17Output = (u64, String, isize, isize, isize, isize, usize, usize, isize, isize);

/// Bids below this price are of the first rank.
pub const RANK1_BELOW: usize = 10_000;

/// Bids below this price, and not of the first rank, are of the second.
pub const RANK2_BELOW: usize = 1_000_000;

/// The day, in the calendar of the `time` crate, on which the instant
/// lies that is `nanos` nanoseconds after the start of 1970; `None` where
/// the crate has no date for the instant.
pub uninterp spec fn ordinal_date(nanos: i128) -> Option<OrdinalDate>;

/// The text of a day in the form of ISO 8601, year, month and day, as the
/// `time` crate writes it; `None` where the crate has no such day or
/// cannot write it.
pub uninterp spec fn day_text(year: i32, ordinal: u16) -> Option<Seq<char>>;

/// Finds the day of an instant with `OffsetDateTime::from_unix_timestamp_nanos`,
/// `OffsetDateTime::date` and `Date::to_ordinal_date` of the `time` crate.
///
/// Trusted: the result is a function of the instant alone.
#[verifier::external_body]
fn ordinal_date_of(nanos: i128) -> (day: Option<OrdinalDate>)
    ensures
        day == ordinal_date(nanos),
{
    match OffsetDateTime::from_unix_timestamp_nanos(nanos) {
        Ok(instant) => Some(instant.date().to_ordinal_date()),
        Err(_) => None,
    }
}

/// Writes a day with `Date::from_ordinal_date` and `Date::format` of the
/// `time` crate, in its format `Iso8601::DATE`.
///
/// Trusted: the result is a function of the year and the number of the
/// day alone.
#[verifier::external_body]
fn day_text_of(year: i32, ordinal: u16) -> (text: Option<String>)
    ensures
        text.is_some() == day_text(year, ordinal).is_some(),
        text matches Some(written) ==> Some(written@) == day_text(year, ordinal),
{
    match Date::from_ordinal_date(year, ordinal) {
        Ok(date) => match date.format(&Iso8601::DATE) {
            Ok(written) => Some(written),
            Err(_) => None,
        },
        Err(_) => None,
    }
}

/// The instant of a bid in nanoseconds.
pub open spec fn nanos_of(date_time: u64) -> i128 {
    (date_time * 1_000_000) as i128
}

/// The tuples that the bids are indexed as: each bid under its auction
/// and its day, with its price as the value.
pub open spec fn indexed<R>(bids: Seq<(Bid, R)>) -> Seq<((DayCode, usize), R)> {
    Seq::new(
        bids.len(),
        |i: int|
            (
                (
                    code_of(
                        (bids[i].0.auction, ordinal_date(nanos_of(bids[i].0.date_time)).unwrap()),
                    ),
                    bids[i].0.price,
                ),
                bids[i].1,
            ),
    )
}

/// Every bid lies on a day that the calendar has.
pub open spec fn all_dated<R>(bids: Seq<(Bid, R)>) -> bool {
    forall|i: int|
        0 <= i < bids.len() ==> ordinal_date(nanos_of((#[trigger] bids[i]).0.date_time)).is_some()
}

/// Indexes a batch of bids by auction and day: each bid is a tuple of
/// its auction and day, and of its price. `None` where a bid lies at an
/// instant for which the calendar has no day.
pub fn index_bids(bids: &Vec<(Bid, isize)>) -> (batch: Option<OrdIndexedZSet<DayCode, usize, isize>>)
    ensures
        batch.is_some() == all_dated(bids@),
        batch matches Some(indexed_batch) ==> indexed_batch.valid() && forall|
            key: DayCode,
            price: usize,
        | #[trigger]
            indexed_batch.weight(key, price) == weight_of(indexed(bids@), (key, price)),
{
    let n = bids.len();
    let mut tuples: Vec<((DayCode, usize), isize)> = Vec::with_capacity(n);
    let mut at: usize = 0;
    while at < n
        invariant
            n == bids@.len(),
            at <= n,
            all_dated(bids@.subrange(0, at as int)),
            tuples@ == indexed(bids@.subrange(0, at as int)),
        decreases n - at,
    {
        let bid = bids[at].0;
        let nanos: i128 = bid.date_time as i128 * 1_000_000;
        match ordinal_date_of(nanos) {
            Some(day) => {
                tuples.push(((encode(bid.auction, day.0, day.1), bid.price), bids[at].1));
                proof {
                    let before = bids@.subrange(0, at as int);
                    let now = bids@.subrange(0, at + 1);
                    assert(now[at as int] == bids@[at as int]);
                    assert forall|i: int| 0 <= i < now.len() implies ordinal_date(
                        nanos_of((#[trigger] now[i]).0.date_time),
                    ).is_some() by {
                        if i < at {
                            assert(now[i] == before[i]);
                        }
                    }
                    assert(tuples@ =~= indexed(now)) by {
                        assert forall|i: int| 0 <= i < now.len() implies tuples@[i] == indexed(
                            now,
                        )[i] by {
                            if i < at {
                                assert(now[i] == before[i]);
                                assert(tuples@[i] == indexed(before)[i]);
                            }
                        }
                    }
                }
            },
            None => {
                proof {
                    assert(!ordinal_date(nanos_of(bids@[at as int].0.date_time)).is_some());
                }
                return None;
            },
        }
        at += 1;
    }
    proof {
        assert(bids@.subrange(0, n as int) =~= bids@);
        lemma_integers_lawful();
    }
    Some(OrdIndexedZSet::from_tuples((), tuples))
}

/// The day of the auction and day that `code` stands for can be written.
pub open spec fn writable(code: DayCode) -> bool {
    day_text(key_of_code(code).1.0, key_of_code(code).1.1).is_some()
}

/// The day of every key of the batch can be written.
pub open spec fn days_writable(batch: OrdIndexedZSet<DayCode, usize, isize>) -> bool {
    forall|i: int| 0 <= i < batch.layer.keys@.len() ==> writable(#[trigger] batch.layer.keys@[i])
}

/// Every day on which the bids, counted with their weights, leave a
/// price with a number of bids other than zero can be written.
pub open spec fn all_written(bids: Seq<(Bid, isize)>) -> bool {
    forall|code: DayCode, price: usize|
        #[trigger] weight_of(indexed(bids), (code, price)) != 0 ==> writable(code)
}

/// Whether the day of every key of the batch can be written.
pub fn days_written(batch: &OrdIndexedZSet<DayCode, usize, isize>) -> (written: bool)
    ensures
        written == days_writable(*batch),
{
    let n = batch.layer.keys.len();
    let mut at: usize = 0;
    while at < n
        invariant
            n == batch.layer.keys@.len(),
            at <= n,
            forall|i: int| 0 <= i < at ==> writable(#[trigger] batch.layer.keys@[i]),
        decreases n - at,
    {
        let key = decode(batch.layer.keys[at]);
        if day_text_of(key.1.0, key.1.1).is_none() {
            proof {
                assert(!writable(batch.layer.keys@[at as int]));
            }
            return false;
        }
        at += 1;
    }
    true
}

/// The keys of a batch of indexed bids are the days on which the bids
/// leave a price with a number of bids other than zero: the days of the
/// one can be written if and only if those of the other can.
pub proof fn lemma_written_keys(bids: Seq<(Bid, isize)>, batch: OrdIndexedZSet<DayCode, usize, isize>)
    requires
        batch.valid(),
        forall|code: DayCode, price: usize| #[trigger]
            batch.weight(code, price) == weight_of(indexed(bids), (code, price)),
    ensures
        days_writable(batch) == all_written(bids),
{
    lemma_integers_lawful();
    if days_writable(batch) {
        assert forall|code: DayCode, price: usize| #[trigger]
            weight_of(indexed(bids), (code, price)) != 0 implies writable(code) by {
            assert(batch.weight(code, price) != 0);
            batch.layer.lemma_weighty_key(code, price);
        }
    }
    if all_written(bids) {
        assert forall|i: int| 0 <= i < batch.layer.keys@.len() implies writable(
            #[trigger] batch.layer.keys@[i],
        ) by {
            batch.layer.lemma_key_weighs(i);
            let code = batch.layer.keys@[i];
            let price = span(batch.layer.offs@, batch.layer.vals.entries(), i)[0].0;
            assert(batch.weight(code, price) != 0);
            assert(weight_of(indexed(bids), (code, price)) != 0);
        }
    }
}

/// A key of the union of two batches is a key of one of the two: where
/// the days of both can be written, so can those of the union.
pub proof fn lemma_merged_days(
    a: OrdIndexedZSet<DayCode, usize, isize>,
    b: OrdIndexedZSet<DayCode, usize, isize>,
    merged: OrdIndexedZSet<DayCode, usize, isize>,
)
    requires
        a.valid(),
        b.valid(),
        merged.valid(),
        merged.weights() == added_indexed(a.weights(), b.weights()),
        days_writable(a),
        days_writable(b),
    ensures
        days_writable(merged),
{
    lemma_integers_lawful();
    assert forall|i: int| 0 <= i < merged.layer.keys@.len() implies writable(
        #[trigger] merged.layer.keys@[i],
    ) by {
        merged.layer.lemma_key_weighs(i);
        let code = merged.layer.keys@[i];
        let price = span(merged.layer.offs@, merged.layer.vals.entries(), i)[0].0;
        assert(merged.weights()(code, price) == a.weights()(code, price).add_spec(
            b.weights()(code, price),
        ));
        if a.weight(code, price) != 0 {
            a.layer.lemma_weighty_key(code, price);
        } else {
            assert(b.weight(code, price) != 0);
            b.layer.lemma_weighty_key(code, price);
        }
    }
}

/// The number of bids among `run`, each counted with its weight, whose
/// price is at least `from` and below `below`.
pub open spec fn bids_within(run: Seq<(usize, isize)>, from: usize, below: usize) -> isize
    decreases run.len(),
{
    if run.len() == 0 {
        0
    } else if from <= run.last().0 < below {
        bids_within(run.drop_last(), from, below).add_spec(run.last().1)
    } else {
        bids_within(run.drop_last(), from, below)
    }
}

/// The number of bids among `run` whose price is at least `from`.
pub open spec fn bids_from(run: Seq<(usize, isize)>, from: usize) -> isize
    decreases run.len(),
{
    if run.len() == 0 {
        0
    } else if from <= run.last().0 {
        bids_from(run.drop_last(), from).add_spec(run.last().1)
    } else {
        bids_from(run.drop_last(), from)
    }
}

/// The price as a weight.
pub open spec fn price_weight(price: usize) -> isize {
    #[verifier::truncate]
    (price as isize)
}

/// The sum of the prices of the bids among `run`, each taken as often as
/// its weight says, in arithmetic that wraps around.
pub open spec fn price_sum(run: Seq<(usize, isize)>) -> isize
    decreases run.len(),
{
    if run.len() == 0 {
        0
    } else {
        price_sum(run.drop_last()).add_spec(price_weight(run.last().0).wrapping_mul(run.last().1))
    }
}

/// The mean of the prices: the sum by the number of bids, rounded towards
/// zero, in arithmetic that wraps around as the sums do: the least
/// `isize` by -1 is the least `isize` again, which is the sum. Without
/// bids it is the sum too; no row is reported then.
pub open spec fn mean(sum: isize, count: isize) -> isize {
    match sum.checked_div(count) {
        Some(mean) => mean,
        None => sum,
    }
}

/// The statistics of the bids `run` on one auction and day: the prices
/// in rising order, each with the number of bids at it.
pub open spec fn stats_of(code: DayCode, run: Seq<(usize, isize)>) -> AuctionStats {
    let key = key_of_code(code);
    let total = bids_from(run, 0);
    let sum = price_sum(run);
    AuctionStats {
        auction: key.0,
        year: key.1.0,
        ordinal: key.1.1,
        total_bids: total,
        rank1_bids: bids_within(run, 0, RANK1_BELOW),
        rank2_bids: bids_within(run, RANK1_BELOW, RANK2_BELOW),
        rank3_bids: bids_from(run, RANK2_BELOW),
        min_price: run[0].0,
        max_price: run.last().0,
        avg_price: mean(sum, total),
        sum_price: sum,
    }
}

/// The report of the first `keys` keys of a batch: the statistics of each
/// key that has a number of bids other than zero, in the order of the
/// keys.
pub open spec fn report(batch: OrdIndexedZSet<DayCode, usize, isize>, keys: int) -> Seq<
    AuctionStats,
>
    decreases keys,
{
    if keys <= 0 {
        Seq::empty()
    } else {
        let stats = stats_of(
            batch.layer.keys@[keys - 1],
            span(batch.layer.offs@, batch.layer.vals.entries(), keys - 1),
        );
        if stats.total_bids != 0 {
            report(batch, keys - 1).push(stats)
        } else {
            report(batch, keys - 1)
        }
    }
}

/// The statistics of every auction and day in a batch of indexed bids.
pub fn aggregate(batch: &OrdIndexedZSet<DayCode, usize, isize>) -> (table: Vec<AuctionStats>)
    requires
        batch.valid(),
    ensures
        table@ == report(*batch, batch.layer.keys@.len() as int),
{
    let mut table: Vec<AuctionStats> = Vec::new();
    let mut cursor = batch.cursor();
    let ghost child = batch.layer.vals.entries();
    while cursor.key_valid()
        invariant
            batch.valid(),
            child == batch.layer.vals.entries(),
            cursor.wf(),
            cursor.cursor.storage == &batch.layer,
            cursor.cursor.bounds.0 == 0,
            cursor.cursor.bounds.1 == batch.layer.keys@.len(),
            cursor.cursor.pos < cursor.cursor.bounds.1 ==> cursor.cursor.child.pos
                == batch.layer.offs@[cursor.cursor.pos as int],
            table@ == report(*batch, cursor.cursor.pos as int),
        decreases cursor.cursor.bounds.1 - cursor.cursor.pos,
    {
        let ghost at = cursor.cursor.pos as int;
        let ghost first = batch.layer.offs@[at] as int;
        let ghost run = span(batch.layer.offs@, child, at);
        proof {
            assert(batch.layer.offs@[at] < batch.layer.offs@[at + 1]);
            assert(run[0] == child[first]);
        }
        let key = decode(*cursor.key());
        let min_price = *cursor.val();
        let mut max_price = min_price;
        let mut total_bids: isize = 0;
        let mut rank1_bids: isize = 0;
        let mut rank2_bids: isize = 0;
        let mut rank3_bids: isize = 0;
        let mut sum_price: isize = 0;
        proof {
            assert(run.subrange(0, 0) =~= Seq::<(usize, isize)>::empty());
        }
        while cursor.val_valid()
            invariant
                batch.valid(),
                child == batch.layer.vals.entries(),
                cursor.wf(),
                cursor.cursor.storage == &batch.layer,
                cursor.cursor.pos == at,
                cursor.cursor.bounds.0 == 0,
                cursor.cursor.bounds.1 == batch.layer.keys@.len(),
                at < batch.layer.keys@.len(),
                first == batch.layer.offs@[at],
                run == span(batch.layer.offs@, child, at),
                first <= cursor.cursor.child.pos <= batch.layer.offs@[at + 1],
                min_price == run[0].0,
                cursor.cursor.child.pos > first ==> max_price == run[cursor.cursor.child.pos - first
                    - 1].0,
                total_bids == bids_from(run.subrange(0, cursor.cursor.child.pos - first), 0),
                rank1_bids == bids_within(
                    run.subrange(0, cursor.cursor.child.pos - first),
                    0,
                    RANK1_BELOW,
                ),
                rank2_bids == bids_within(
                    run.subrange(0, cursor.cursor.child.pos - first),
                    RANK1_BELOW,
                    RANK2_BELOW,
                ),
                rank3_bids == bids_from(
                    run.subrange(0, cursor.cursor.child.pos - first),
                    RANK2_BELOW,
                ),
                sum_price == price_sum(run.subrange(0, cursor.cursor.child.pos - first)),
            decreases batch.layer.offs@[at + 1] - cursor.cursor.child.pos,
        {
            let ghost j = cursor.cursor.child.pos - first;
            let price = *cursor.val();
            let weight = cursor.weight();
            proof {
                assert(run[j] == child[cursor.cursor.child.pos as int]);
                assert(run.subrange(0, j + 1).drop_last() =~= run.subrange(0, j));
                assert(run.subrange(0, j + 1).last() == run[j]);
            }
            total_bids = total_bids.wrapping_add(weight);
            if price < RANK1_BELOW {
                rank1_bids = rank1_bids.wrapping_add(weight);
            } else if price < RANK2_BELOW {
                rank2_bids = rank2_bids.wrapping_add(weight);
            } else {
                rank3_bids = rank3_bids.wrapping_add(weight);
            }
            let as_weight = #[verifier::truncate]
            (price as isize);
            sum_price = sum_price.wrapping_add(as_weight.wrapping_mul(weight));
            max_price = price;
            cursor.step_val();
        }
        proof {
            assert(cursor.cursor.child.pos - first == run.len());
            assert(run.subrange(0, run.len() as int) =~= run);
        }
        if total_bids != 0 {
            let avg_price = match sum_price.checked_div(total_bids) {
                Some(mean) => mean,
                None => sum_price,
            };
            table.push(
                AuctionStats {
                    auction: key.0,
                    year: key.1.0,
                    ordinal: key.1.1,
                    total_bids,
                    rank1_bids,
                    rank2_bids,
                    rank3_bids,
                    min_price,
                    max_price,
                    avg_price,
                    sum_price,
                },
            );
        }
        cursor.step_key();
    }
    table
}

/// The table as a Z-set: each row once.
pub open spec fn rows(table: Seq<AuctionStats>) -> Seq<(AuctionStats, isize)> {
    Seq::new(table.len(), |i: int| (table[i], 1isize))
}

/// The auction and day of a row.
pub open spec fn key_of(stats: AuctionStats) -> AuctionDay {
    (stats.auction, (stats.year, stats.ordinal))
}

/// The changes from the rows of `old` from `i` on to the rows of `new`
/// from `j` on, both read in the order of their auctions and days: a row
/// that only `old` has for its auction and day goes with the weight -1, a
/// row that only `new` has with the weight 1; where both have a row, the
/// two go together, the old one first, unless they are the same.
pub open spec fn table_changes(
    old: Seq<AuctionStats>,
    new: Seq<AuctionStats>,
    i: int,
    j: int,
) -> Seq<(AuctionStats, isize)>
    decreases (old.len() - i) + (new.len() - j),
{
    if 0 <= i <= old.len() && 0 <= j <= new.len() && (i < old.len() || j < new.len()) {
        let take_old = i < old.len() && (j >= new.len() || !before(key_of(new[j]), key_of(old[i])));
        let take_new = j < new.len() && (i >= old.len() || !before(key_of(old[i]), key_of(new[j])));
        if take_old && take_new {
            if old[i] == new[j] {
                table_changes(old, new, i + 1, j + 1)
            } else {
                seq![(old[i], -1isize), (new[j], 1isize)] + table_changes(old, new, i + 1, j + 1)
            }
        } else if take_old {
            seq![(old[i], -1isize)] + table_changes(old, new, i + 1, j)
        } else {
            seq![(new[j], 1isize)] + table_changes(old, new, i, j + 1)
        }
    } else {
        Seq::empty()
    }
}

/// The changes from the table `old` to the table `new`: each row that is
/// in `old` only with the weight -1, each row that is in `new` only with
/// the weight 1, the rows of one auction and day together, the old one
/// first. The tables are read in the order of their auctions and days.
pub fn changes(old: &Vec<AuctionStats>, new: &Vec<AuctionStats>) -> (delta: Vec<(AuctionStats, isize)>)
    ensures
        delta@ == table_changes(old@, new@, 0, 0),
        forall|row: AuctionStats| #[trigger]
            weight_of(delta@, row) == weight_of(rows(new@), row).add_spec(
                weight_of(rows(old@), row).neg_spec(),
            ),
        forall|i: int| 0 <= i < delta@.len() ==> (#[trigger] delta@[i]).1 == 1 || delta@[i].1 == -1,
{
    let mut delta: Vec<(AuctionStats, isize)> = Vec::new();
    let mut i: usize = 0;
    let mut j: usize = 0;
    proof {
        assert(delta@ + table_changes(old@, new@, 0, 0) =~= table_changes(old@, new@, 0, 0));
        assert(rows(old@).subrange(0, 0) =~= Seq::<(AuctionStats, isize)>::empty());
        assert(rows(new@).subrange(0, 0) =~= Seq::<(AuctionStats, isize)>::empty());
    }
    while i < old.len() || j < new.len()
        invariant
            i <= old@.len(),
            j <= new@.len(),
            forall|row: AuctionStats| #[trigger]
                weight_of(delta@, row) == weight_of(rows(new@).subrange(0, j as int), row).add_spec(
                    weight_of(rows(old@).subrange(0, i as int), row).neg_spec(),
                ),
            forall|p: int|
                0 <= p < delta@.len() ==> (#[trigger] delta@[p]).1 == 1 || delta@[p].1 == -1,
            delta@ + table_changes(old@, new@, i as int, j as int) == table_changes(
                old@,
                new@,
                0,
                0,
            ),
        decreases (old@.len() - i) + (new@.len() - j),
    {
        let ghost held = delta@;
        let ghost ahead = table_changes(old@, new@, i as int, j as int);
        let ghost seen_old = rows(old@).subrange(0, i as int);
        let ghost seen_new = rows(new@).subrange(0, j as int);
        let take_old = i < old.len() && (j >= new.len() || !earlier(&new[j], &old[i]));
        let take_new = j < new.len() && (i >= old.len() || !earlier(&old[i], &new[j]));
        if take_old && take_new {
            if old[i] == new[j] {
                // the row has not changed
                proof {
                    assert(rows(old@).subrange(0, i + 1) =~= seen_old.push((old@[i as int], 1isize)));
                    assert(rows(new@).subrange(0, j + 1) =~= seen_new.push((new@[j as int], 1isize)));
                    assert forall|row: AuctionStats| #[trigger]
                        weight_of(held, row) == weight_of(
                            seen_new.push((new@[j as int], 1isize)),
                            row,
                        ).add_spec(
                            weight_of(seen_old.push((old@[i as int], 1isize)), row).neg_spec(),
                        ) by {
                        lemma_change_none(held, seen_new, seen_old, old@[i as int], row);
                    }
                }
            } else {
                delta.push((old[i], -1));
                delta.push((new[j], 1));
                proof {
                    assert(rows(old@).subrange(0, i + 1) =~= seen_old.push((old@[i as int], 1isize)));
                    assert(rows(new@).subrange(0, j + 1) =~= seen_new.push((new@[j as int], 1isize)));
                    assert forall|row: AuctionStats| #[trigger]
                        weight_of(delta@, row) == weight_of(
                            seen_new.push((new@[j as int], 1isize)),
                            row,
                        ).add_spec(
                            weight_of(seen_old.push((old@[i as int], 1isize)), row).neg_spec(),
                        ) by {
                        lemma_change_old(held, seen_new, seen_old, old@[i as int], row);
                        lemma_change_new(
                            held.push((old@[i as int], -1isize)),
                            seen_new,
                            seen_old.push((old@[i as int], 1isize)),
                            new@[j as int],
                            row,
                        );
                    }
                }
            }
            i += 1;
            j += 1;
        } else if take_old {
            delta.push((old[i], -1));
            proof {
                assert(rows(old@).subrange(0, i + 1) =~= seen_old.push((old@[i as int], 1isize)));
                assert forall|row: AuctionStats| #[trigger]
                    weight_of(delta@, row) == weight_of(seen_new, row).add_spec(
                        weight_of(seen_old.push((old@[i as int], 1isize)), row).neg_spec(),
                    ) by {
                    lemma_change_old(held, seen_new, seen_old, old@[i as int], row);
                }
            }
            i += 1;
        } else {
            proof {
                if i < old@.len() && j < new@.len() {
                    lemma_before_asymmetric(
                        (old@[i as int].auction, (old@[i as int].year, old@[i as int].ordinal)),
                        (new@[j as int].auction, (new@[j as int].year, new@[j as int].ordinal)),
                    );
                }
            }
            delta.push((new[j], 1));
            proof {
                assert(rows(new@).subrange(0, j + 1) =~= seen_new.push((new@[j as int], 1isize)));
                assert forall|row: AuctionStats| #[trigger]
                    weight_of(delta@, row) == weight_of(
                        seen_new.push((new@[j as int], 1isize)),
                        row,
                    ).add_spec(weight_of(seen_old, row).neg_spec()) by {
                    lemma_change_new(held, seen_new, seen_old, new@[j as int], row);
                }
            }
            j += 1;
        }
        proof {
            let rest = table_changes(old@, new@, i as int, j as int);
            assert(held + ahead =~= delta@ + rest);
        }
    }
    proof {
        assert(table_changes(old@, new@, i as int, j as int) =~= Seq::<
            (AuctionStats, isize),
        >::empty());
        assert(delta@ + Seq::<(AuctionStats, isize)>::empty() =~= delta@);
        assert(rows(old@).subrange(0, old@.len() as int) =~= rows(old@));
        assert(rows(new@).subrange(0, new@.len() as int) =~= rows(new@));
    }
    delta
}

/// A row that leaves the table goes into the changes with the weight -1.
proof fn lemma_change_old(
    held: Seq<(AuctionStats, isize)>,
    seen_new: Seq<(AuctionStats, isize)>,
    seen_old: Seq<(AuctionStats, isize)>,
    gone: AuctionStats,
    row: AuctionStats,
)
    requires
        weight_of(held, row) == weight_of(seen_new, row).add_spec(
            weight_of(seen_old, row).neg_spec(),
        ),
    ensures
        weight_of(held.push((gone, -1isize)), row) == weight_of(seen_new, row).add_spec(
            weight_of(seen_old.push((gone, 1isize)), row).neg_spec(),
        ),
{
    lemma_weight_push(held, (gone, -1isize), row);
    lemma_weight_push(seen_old, (gone, 1isize), row);
}

/// A row that comes into the table goes into the changes with the weight 1.
proof fn lemma_change_new(
    held: Seq<(AuctionStats, isize)>,
    seen_new: Seq<(AuctionStats, isize)>,
    seen_old: Seq<(AuctionStats, isize)>,
    come: AuctionStats,
    row: AuctionStats,
)
    requires
        weight_of(held, row) == weight_of(seen_new, row).add_spec(
            weight_of(seen_old, row).neg_spec(),
        ),
    ensures
        weight_of(held.push((come, 1isize)), row) == weight_of(
            seen_new.push((come, 1isize)),
            row,
        ).add_spec(weight_of(seen_old, row).neg_spec()),
{
    lemma_weight_push(held, (come, 1isize), row);
    lemma_weight_push(seen_new, (come, 1isize), row);
}

/// A row that stays in the table as it is does not go into the changes.
proof fn lemma_change_none(
    held: Seq<(AuctionStats, isize)>,
    seen_new: Seq<(AuctionStats, isize)>,
    seen_old: Seq<(AuctionStats, isize)>,
    same: AuctionStats,
    row: AuctionStats,
)
    requires
        weight_of(held, row) == weight_of(seen_new, row).add_spec(
            weight_of(seen_old, row).neg_spec(),
        ),
    ensures
        weight_of(held, row) == weight_of(seen_new.push((same, 1isize)), row).add_spec(
            weight_of(seen_old.push((same, 1isize)), row).neg_spec(),
        ),
{
    lemma_weight_push(seen_new, (same, 1isize), row);
    lemma_weight_push(seen_old, (same, 1isize), row);
}

/// The day of every row can be written.
pub open spec fn rows_writable(table: Seq<AuctionStats>) -> bool {
    forall|i: int| 0 <= i < table.len() ==> day_text((#[trigger] table[i]).year, table[i].ordinal).is_some()
}

/// The rows of a report are of keys of the batch: where the days of the
/// keys can be written, so can those of the rows.
pub proof fn lemma_report_days(batch: OrdIndexedZSet<DayCode, usize, isize>, keys: int)
    requires
        days_writable(batch),
        0 <= keys <= batch.layer.keys@.len(),
    ensures
        rows_writable(report(batch, keys)),
    decreases keys,
{
    if keys > 0 {
        lemma_report_days(batch, keys - 1);
        assert(writable(batch.layer.keys@[keys - 1]));
    }
}

/// The changes from one table to another are rows of the two: where the
/// days of both tables can be written, so can those of the changes.
pub proof fn lemma_changes_days(old: Seq<AuctionStats>, new: Seq<AuctionStats>, i: int, j: int)
    requires
        rows_writable(old),
        rows_writable(new),
    ensures
        forall|p: int|
            0 <= p < table_changes(old, new, i, j).len() ==> day_text(
                (#[trigger] table_changes(old, new, i, j)[p]).0.year,
                table_changes(old, new, i, j)[p].0.ordinal,
            ).is_some(),
    decreases (old.len() - i) + (new.len() - j),
{
    if 0 <= i <= old.len() && 0 <= j <= new.len() && (i < old.len() || j < new.len()) {
        let take_old = i < old.len() && (j >= new.len() || !before(key_of(new[j]), key_of(old[i])));
        let take_new = j < new.len() && (i >= old.len() || !before(key_of(old[i]), key_of(new[j])));
        if take_old && take_new {
            lemma_changes_days(old, new, i + 1, j + 1);
        } else if take_old {
            lemma_changes_days(old, new, i + 1, j);
        } else {
            lemma_changes_days(old, new, i, j + 1);
        }
    }
}

/// The auction and day `a` stands before `b`: its auction is smaller, or
/// its year, or its day in the year.
pub open spec fn before(a: AuctionDay, b: AuctionDay) -> bool {
    a.0 < b.0 || (a.0 == b.0 && (a.1.0 < b.1.0 || (a.1.0 == b.1.0 && a.1.1 < b.1.1)))
}

/// Of two auctions and days, at most one stands before the other.
pub proof fn lemma_before_asymmetric(a: AuctionDay, b: AuctionDay)
    ensures
        !(before(a, b) && before(b, a)),
{
}

/// Whether the row `a` is of an auction and day that stands before that
/// of the row `b`.
pub fn earlier(a: &AuctionStats, b: &AuctionStats) -> (earlier: bool)
    ensures
        earlier == before(key_of(*a), key_of(*b)),
{
    a.auction < b.auction || (a.auction == b.auction && (a.year < b.year || (a.year == b.year
        && a.ordinal < b.ordinal)))
}

/// The row of the report for the statistics `stats`, with `day` as the
/// text of the day.
pub fn output_row(stats: &AuctionStats, day: String) -> (row: Q17Output)
    ensures
        row == (
            stats.auction,
            day,
            stats.total_bids,
            stats.rank1_bids,
            stats.rank2_bids,
            stats.rank3_bids,
            stats.min_price,
            stats.max_price,
            stats.avg_price,
            stats.sum_price,
        ),
{
    (
        stats.auction,
        day,
        stats.total_bids,
        stats.rank1_bids,
        stats.rank2_bids,
        stats.rank3_bids,
        stats.min_price,
        stats.max_price,
        stats.avg_price,
        stats.sum_price,
    )
}

/// The rows of the report for the changes `delta`, each with its weight.
/// `None` where a day cannot be written.
pub fn render(delta: &Vec<(AuctionStats, isize)>) -> (written: Option<Vec<(Q17Output, isize)>>)
    ensures
        written.is_some() == (forall|i: int|
            0 <= i < delta@.len() ==> day_text(
                (#[trigger] delta@[i]).0.year,
                delta@[i].0.ordinal,
            ).is_some()),
        written matches Some(lines) ==> lines@.len() == delta@.len() && forall|i: int|
            0 <= i < delta@.len() ==> {
                &&& (#[trigger] lines@[i]).1 == delta@[i].1
                &&& lines@[i].0.0 == delta@[i].0.auction
                &&& Some(lines@[i].0.1@) == day_text(delta@[i].0.year, delta@[i].0.ordinal)
                &&& lines@[i].0.2 == delta@[i].0.total_bids
                &&& lines@[i].0.3 == delta@[i].0.rank1_bids
                &&& lines@[i].0.4 == delta@[i].0.rank2_bids
                &&& lines@[i].0.5 == delta@[i].0.rank3_bids
                &&& lines@[i].0.6 == delta@[i].0.min_price
                &&& lines@[i].0.7 == delta@[i].0.max_price
                &&& lines@[i].0.8 == delta@[i].0.avg_price
                &&& lines@[i].0.9 == delta@[i].0.sum_price
            },
{
    let n = delta.len();
    let mut lines: Vec<(Q17Output, isize)> = Vec::with_capacity(n);
    let mut at: usize = 0;
    while at < n
        invariant
            n == delta@.len(),
            at <= n,
            lines@.len() == at,
            forall|i: int|
                0 <= i < at ==> {
                    &&& day_text((#[trigger] delta@[i]).0.year, delta@[i].0.ordinal).is_some()
                },
            forall|i: int|
                0 <= i < at ==> {
                    &&& (#[trigger] lines@[i]).1 == delta@[i].1
                    &&& lines@[i].0.0 == delta@[i].0.auction
                    &&& Some(lines@[i].0.1@) == day_text(delta@[i].0.year, delta@[i].0.ordinal)
                    &&& lines@[i].0.2 == delta@[i].0.total_bids
                    &&& lines@[i].0.3 == delta@[i].0.rank1_bids
                    &&& lines@[i].0.4 == delta@[i].0.rank2_bids
                    &&& lines@[i].0.5 == delta@[i].0.rank3_bids
                    &&& lines@[i].0.6 == delta@[i].0.min_price
                    &&& lines@[i].0.7 == delta@[i].0.max_price
                    &&& lines@[i].0.8 == delta@[i].0.avg_price
                    &&& lines@[i].0.9 == delta@[i].0.sum_price
                },
        decreases n - at,
    {
        let stats = delta[at].0;
        match day_text_of(stats.year, stats.ordinal) {
            Some(day) => {
                lines.push((output_row(&stats, day), delta[at].1));
            },
            None => {
                return None;
            },
        }
        at += 1;
    }
    Some(lines)
}

/// The query as it runs: the bids seen so far, indexed by auction and
/// day, and the report of them.
pub struct Q17 {
    pub bids: OrdIndexedZSet<DayCode, usize, isize>,
    pub table: Vec<AuctionStats>,
}

/// The lines are the rows of the changes `delta`, in order, each with the
/// text of its day.
pub open spec fn written_as(lines: Seq<(Q17Output, isize)>, delta: Seq<(AuctionStats, isize)>) -> bool {
    &&& lines.len() == delta.len()
    &&& forall|i: int|
        0 <= i < delta.len() ==> {
            &&& (#[trigger] lines[i]).1 == delta[i].1
            &&& lines[i].0.0 == delta[i].0.auction
            &&& Some(lines[i].0.1@) == day_text(delta[i].0.year, delta[i].0.ordinal)
            &&& lines[i].0.2 == delta[i].0.total_bids
            &&& lines[i].0.3 == delta[i].0.rank1_bids
            &&& lines[i].0.4 == delta[i].0.rank2_bids
            &&& lines[i].0.5 == delta[i].0.rank3_bids
            &&& lines[i].0.6 == delta[i].0.min_price
            &&& lines[i].0.7 == delta[i].0.max_price
            &&& lines[i].0.8 == delta[i].0.avg_price
            &&& lines[i].0.9 == delta[i].0.sum_price
        }
}

impl Q17 {
    /// The bids form a valid batch, the day of each of its keys can be
    /// written, and the table is the report of the bids.
    pub open spec fn wf(&self) -> bool {
        &&& self.bids.valid()
        &&& days_writable(self.bids)
        &&& self.table@ == report(self.bids, self.bids.layer.keys@.len() as int)
    }

    /// The query before any bid.
    pub fn new() -> (query: Self)
        ensures
            query.wf(),
            query.table@.len() == 0,
            query.bids.layer.keys@.len() == 0,
    {
        Q17 { bids: OrdIndexedZSet::empty(), table: Vec::new() }
    }

    /// Takes a batch of bids, each with the weight it is inserted or
    /// retracted with, and returns the changes of the report: the rows
    /// that are no longer right with the weight -1, and the rows that are
    /// new or have changed with the weight 1, in the order of their
    /// auctions and days. `None`, and nothing is taken, where a bid lies
    /// on no day of the calendar, or the bids leave a price on a day that
    /// cannot be written.
    pub fn step(&mut self, batch: &Vec<(Bid, isize)>) -> (changed: Option<Vec<(Q17Output, isize)>>)
        requires
            old(self).wf(),
        ensures
            final(self).wf(),
            changed.is_some() == (all_dated(batch@) && all_written(batch@)),
            changed.is_none() ==> *final(self) == *old(self),
            changed matches Some(lines) ==> {
                &&& final(self).bids.weights() == added_indexed(
                    old(self).bids.weights(),
                    |key: DayCode, price: usize| weight_of(indexed(batch@), (key, price)),
                )
                &&& written_as(
                    lines@,
                    table_changes(old(self).table@, final(self).table@, 0, 0),
                )
                &&& forall|row: AuctionStats| #[trigger]
                    weight_of(table_changes(old(self).table@, final(self).table@, 0, 0), row)
                        == weight_of(rows(final(self).table@), row).add_spec(
                        weight_of(rows(old(self).table@), row).neg_spec(),
                    )
            },
    {
        let indexed_batch = match index_bids(batch) {
            Some(indexed_batch) => indexed_batch,
            None => {
                return None;
            },
        };
        proof {
            lemma_integers_lawful();
            lemma_written_keys(batch@, indexed_batch);
        }
        if !days_written(&indexed_batch) {
            return None;
        }
        let bids = self.bids.merge(&indexed_batch);
        let table = aggregate(&bids);
        let delta = changes(&self.table, &table);
        proof {
            lemma_merged_days(self.bids, indexed_batch, bids);
            lemma_report_days(self.bids, self.bids.layer.keys@.len() as int);
            lemma_report_days(bids, bids.layer.keys@.len() as int);
            lemma_changes_days(self.table@, table@, 0, 0);
        }
        match render(&delta) {
            Some(lines) => {
                proof {
                    let taken = |key: DayCode, price: usize|
                        weight_of(indexed(batch@), (key, price));
                    assert forall|key: DayCode, price: usize| #[trigger]
                        indexed_batch.weights()(key, price) == taken(key, price) by {
                        assert(indexed_batch.weight(key, price) == weight_of(
                            indexed(batch@),
                            (key, price),
                        ));
                    }
                    assert(indexed_batch.weights() =~= taken);
                    assert(written_as(lines@, delta@));
                }
                self.bids = bids;
                self.table = table;
                Some(lines)
            },
            None => None,
        }
    }
}

/// One step of the query: see [`Q17::step`].
pub fn q17(query: &mut Q17, batch: &Vec<(Bid, isize)>) -> (changed: Option<Vec<(Q17Output, isize)>>)
    requires
        old(query).wf(),
    ensures
        final(query).wf(),
        changed.is_some() == (all_dated(batch@) && all_written(batch@)),
        changed.is_none() ==> *final(query) == *old(query),
        changed matches Some(lines) ==> {
            &&& final(query).bids.weights() == added_indexed(
                old(query).bids.weights(),
                |key: DayCode, price: usize| weight_of(indexed(batch@), (key, price)),
            )
            &&& written_as(
                lines@,
                table_changes(old(query).table@, final(query).table@, 0, 0),
            )
            &&& forall|row: AuctionStats| #[trigger]
                weight_of(table_changes(old(query).table@, final(query).table@, 0, 0), row)
                    == weight_of(rows(final(query).table@), row).add_spec(
                    weight_of(rows(old(query).table@), row).neg_spec(),
                )
        },
{
    query.step(batch)
}

} // verus!
