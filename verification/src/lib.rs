//! In-memory price aggregation for a dual-channel auction market.
//!
//! Raw per-listing samples arrive from two sale channels (ascending-bid
//! auctions and fixed-price buy-it-now listings) and are folded into a
//! single representative average price and a merged sales-volume series.
//! The store keeps one sample per time bucket and channel, the selector
//! applies a liquidity-dominance heuristic over the two channel means, and
//! the cumulative accumulator folds per-period totals into a long-run
//! average.

use vstd::prelude::*;

pub mod accumulator;
pub mod records;
pub mod store;

verus! {

/// Returned when an average is requested but there is no data to average:
/// both channels of a store are empty, or an accumulator's count is zero.
/// Callers must treat this as "no data for this period" and never
/// substitute zero.
#[derive(Clone, Copy, PartialEq, Eq, Structural, Debug)]
pub struct EmptyAggregateError;

} // verus!
