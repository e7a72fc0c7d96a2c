use auction_averages::store::{AvgVec, Channel, MeanPrice, Sample};
use auction_averages::EmptyAggregateError;

fn sample(price: u64, sales: u32) -> Sample {
    Sample { price, sales }
}

#[test]
fn empty_store_errors() {
    let store = AvgVec::new();
    assert_eq!(store.get_average(false), Err(EmptyAggregateError));
    assert_eq!(store.get_average(true), Err(EmptyAggregateError));
}

#[test]
fn lone_channel_wins_regardless_of_mode() {
    let store = AvgVec::from(sample(500, 1), 100, Channel::BuyItNow);
    assert_eq!(store.get_average(true), Ok(MeanPrice { sum: 500, count: 1 }));
    assert_eq!(store.get_average(false), Ok(MeanPrice { sum: 500, count: 1 }));
}

#[test]
fn legacy_mode_takes_smaller_mean() {
    // Auction mean 1000, buy-it-now mean 800; huge buy-it-now volume is
    // ignored in legacy mode.
    let store = AvgVec::from(sample(1000, 100), 1, Channel::Auction)
        .update(sample(800, 1), 1, Channel::BuyItNow);
    assert_eq!(store.get_average(true), Ok(MeanPrice { sum: 800, count: 1 }));
}

#[test]
fn auction_dominance_trusts_auction_mean() {
    // Auction sales 55 > 10 * 5, so robust mode reports the auction mean
    // even though it is the larger one.
    let store = AvgVec::from(sample(2000, 30), 1, Channel::Auction)
        .update(sample(4000, 25), 2, Channel::Auction)
        .update(sample(100, 5), 1, Channel::BuyItNow);
    assert_eq!(store.get_average(false), Ok(MeanPrice { sum: 6000, count: 2 }));
    // Legacy mode still takes the smaller mean.
    assert_eq!(store.get_average(true), Ok(MeanPrice { sum: 100, count: 1 }));
}

#[test]
fn bin_dominance_scenario() {
    // Auction: {t=100: price 1_000_000, sales 2}, {t=200: price 1_100_000,
    // sales 1} so the auction mean is 1_050_000 over sales volume 3.
    // Buy-it-now: {t=100: price 900_000, sales 50}. Since 50 > 10 * 3, the
    // robust average is exactly the buy-it-now mean, 900_000.
    let store = AvgVec::from(sample(1_000_000, 2), 100, Channel::Auction)
        .update(sample(1_100_000, 1), 200, Channel::Auction)
        .update(sample(900_000, 50), 100, Channel::BuyItNow);
    assert_eq!(store.get_average(false), Ok(MeanPrice { sum: 900_000, count: 1 }));
}

#[test]
fn no_dominance_falls_back_to_min() {
    // Volumes 30 vs 5: neither exceeds ten times the other, so robust and
    // legacy agree on the smaller mean.
    let store = AvgVec::from(sample(2000, 30), 1, Channel::Auction)
        .update(sample(1500, 5), 1, Channel::BuyItNow);
    assert_eq!(store.get_average(false), Ok(MeanPrice { sum: 1500, count: 1 }));
    assert_eq!(store.get_average(true), Ok(MeanPrice { sum: 1500, count: 1 }));
}

#[test]
fn mean_is_kept_exact() {
    // 1_000_000 and 1_100_000 average to the exact pair (2_100_000, 2).
    let store = AvgVec::from(sample(1_000_000, 1), 1, Channel::Auction)
        .update(sample(1_100_000, 1), 2, Channel::Auction);
    assert_eq!(store.get_average(true), Ok(MeanPrice { sum: 2_100_000, count: 2 }));
}

#[test]
fn equal_means_pick_one_of_them() {
    // Means 100/1 and 200/2 are the same value; either exact pair is a
    // faithful answer, and the selector prefers the auction pair.
    let store = AvgVec::from(sample(100, 1), 1, Channel::Auction)
        .update(sample(90, 1), 1, Channel::BuyItNow)
        .update(sample(110, 1), 2, Channel::BuyItNow);
    assert_eq!(store.get_average(true), Ok(MeanPrice { sum: 100, count: 1 }));
}

#[test]
fn largest_price_is_exact() {
    let store = AvgVec::from(sample(u64::MAX, 1), 1, Channel::Auction);
    assert_eq!(
        store.get_average(false),
        Ok(MeanPrice { sum: u64::MAX as u128, count: 1 })
    );
}

#[test]
fn last_write_wins_per_bucket() {
    // Two upserts at the same (channel, timestamp) leave one entry holding
    // the later sample.
    let store = AvgVec::from(sample(10, 1), 100, Channel::Auction)
        .update(sample(20, 3), 100, Channel::Auction);
    assert_eq!(store.get_sales(), vec![3u64]);
    assert_eq!(store.get_average(true), Ok(MeanPrice { sum: 20, count: 1 }));
}

#[test]
fn combined_sales_sums_shared_buckets() {
    // t=100 is present in both channels: 5 + 3 = 8.
    let store = AvgVec::from(sample(1000, 5), 100, Channel::Auction)
        .update(sample(900, 3), 100, Channel::BuyItNow);
    assert_eq!(store.get_sales(), vec![8u64]);
}

#[test]
fn combined_sales_passes_lone_buckets_through() {
    let store = AvgVec::from(sample(1000, 5), 100, Channel::Auction)
        .update(sample(900, 3), 100, Channel::BuyItNow)
        .update(sample(1200, 7), 200, Channel::BuyItNow);
    let mut sales = store.get_sales();
    sales.sort();
    assert_eq!(sales, vec![7u64, 8u64]);
}

#[test]
fn sales_of_empty_store_are_empty() {
    let store = AvgVec::new();
    assert_eq!(store.get_sales(), Vec::<u64>::new());
}
