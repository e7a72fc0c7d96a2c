//! Plain record types for the upstream listings feed and the finalized
//! reporting rows. The network and database edges that fill these live
//! outside the library; the types themselves carry no logic.

use vstd::prelude::*;

verus! {

/// One bid placed on an ascending-bid listing.
#[derive(Clone, Debug)]
pub struct Bid {
    pub bidder: String,
    pub amount: i64,
}

/// A finalized pet price row.
#[derive(Clone, Debug)]
pub struct PetsDatabaseItem {
    pub name: String,
    pub price: i64,
}

/// The display block of a listed item.
#[derive(Clone, Debug)]
pub struct DisplayInfo {
    pub name: String,
}

/// Pet metadata carried inside a listing.
#[derive(Clone, Debug)]
pub struct PetInfo {
    pub tier: String,
    pub held_item: Option<String>,
}

/// One page of active listings from the upstream feed.
#[derive(Clone, Debug)]
pub struct Auctions {
    pub page: i64,
    pub total_pages: i64,
    pub last_updated: i64,
    pub auctions: Vec<Auction>,
}

/// One active listing from the upstream feed.
#[derive(Clone, Debug)]
pub struct Auction {
    pub uuid: String,
    pub auctioneer: String,
    pub end: i64,
    pub item_name: String,
    pub item_lore: String,
    pub tier: String,
    pub starting_bid: i64,
    pub highest_bid_amount: i64,
    pub item_bytes: String,
    pub bin: bool,
    pub bids: Vec<Bid>,
    pub last_updated: i64,
}

/// One batch of recently ended listings from the upstream feed.
#[derive(Clone, Debug)]
pub struct EndedAuctions {
    pub last_updated: i64,
    pub auctions: Vec<EndedAuction>,
}

/// One ended listing from the upstream feed.
#[derive(Clone, Debug)]
pub struct EndedAuction {
    pub price: i64,
    pub bin: bool,
    pub item_bytes: String,
    pub auction_id: String,
}

} // verus!
