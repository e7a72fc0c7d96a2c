//! Per-item, per-channel sample store and the dual-channel average
//! selector.
//!
//! One store holds the samples of a single tradable item, keyed by time
//! bucket, separately for the two sale channels. Ingestion upserts samples
//! (last write wins per bucket); reporting reads a merged sales series and
//! a representative average chosen by a liquidity-dominance heuristic.
//!
//! The samples sit in concurrent sharded maps so that producers writing
//! distinct buckets never block one another; reads iterate the live
//! structure without a snapshot lock, which is acceptable for the advisory
//! analytics this feeds.

use vstd::prelude::*;

verus! {

use crate::EmptyAggregateError;

/// The two listing mechanisms tracked independently per item.
#[derive(Clone, Copy, PartialEq, Eq, Structural, Debug)]
pub enum Channel {
    /// Ascending-bid listings.
    Auction,
    /// Fixed-price listings.
    BuyItNow,
}

/// One price/volume sample for a single time bucket of one channel.
#[derive(Clone, Copy, PartialEq, Eq, Structural, Debug)]
pub struct Sample {
    /// Unit price observed in the bucket, in the market's base currency.
    pub price: u64,
    /// Sales volume observed in the bucket.
    pub sales: u32,
}

/// A representative average price, kept exact as the pair
/// `sum / count`: the summed prices of the selected channel over its
/// number of buckets.
#[derive(Clone, Copy, PartialEq, Eq, Structural, Debug)]
pub struct MeanPrice {
    /// Sum of the selected channel's prices.
    pub sum: u128,
    /// Number of buckets the sum ranges over; always positive.
    pub count: u64,
}

#[verifier::external_type_specification]
#[verifier::external_body]
#[verifier::reject_recursive_types(K)]
#[verifier::reject_recursive_types(V)]
#[verifier::reject_recursive_types(S)]
pub struct ExDashMap<K, V, S>(dashmap::DashMap<K, V, S>);

/// The samples a concurrent bucket map currently holds, as a mapping from
/// time bucket to sample.
pub uninterp spec fn stored_samples(m: dashmap::DashMap<i64, Sample>) -> Map<i64, Sample>;

/// `s` lists the entries of `m`: every listed pair is in `m`, no bucket is
/// listed twice, and every bucket of `m` is listed. The order is
/// arbitrary.
pub open spec fn entry_listing(s: Seq<(i64, Sample)>, m: Map<i64, Sample>) -> bool {
    &&& m.dom().finite()
    &&& s.len() == m.dom().len()
    &&& forall|i: int, j: int| 0 <= i < j < s.len() ==> (#[trigger] s[i]).0 != (#[trigger] s[j]).0
    &&& forall|i: int| 0 <= i < s.len() ==> m.contains_pair((#[trigger] s[i]).0, s[i].1)
    &&& forall|k: i64|
        m.dom().contains(k) ==> exists|i: int| 0 <= i < s.len() && (#[trigger] s[i]).0 == k
}

/// A bucket map with no samples in it.
pub open spec fn no_samples() -> Map<i64, Sample> {
    Map::empty()
}

/// Relies on dashmap::DashMap::new: a freshly created map holds no
/// entries.
#[verifier::external_body]
fn dash_new() -> (r: dashmap::DashMap<i64, Sample>)
    ensures
        stored_samples(r) == no_samples(),
{
    dashmap::DashMap::new()
}

/// Relies on dashmap::DashMap::insert: stores `v` under `k`, replacing any
/// previous entry at that key and leaving all other keys untouched.
#[verifier::external_body]
fn dash_insert(m: &mut dashmap::DashMap<i64, Sample>, k: i64, v: Sample)
    ensures
        stored_samples(*final(m)) == stored_samples(*old(m)).insert(k, v),
{
    m.insert(k, v);
}

/// Relies on dashmap::DashMap::iter: the iterator visits every entry of
/// the map exactly once, in no guaranteed order.
#[verifier::external_body]
fn dash_entries(m: &dashmap::DashMap<i64, Sample>) -> (r: Vec<(i64, Sample)>)
    ensures
        entry_listing(r@, stored_samples(*m)),
{
    m.iter().map(|e| (*e.key(), *e.value())).collect()
}

/// The folding step that adds the price stored at a bucket of `m`.
pub open spec fn price_step(m: Map<i64, Sample>) -> spec_fn(int, i64) -> int {
    |acc: int, k: i64| acc + m[k].price
}

/// The folding step that adds the sales stored at a bucket of `m`.
pub open spec fn sales_step(m: Map<i64, Sample>) -> spec_fn(int, i64) -> int {
    |acc: int, k: i64| acc + m[k].sales
}

/// Sum of the prices stored at the buckets of `m` listed in `keys`.
pub open spec fn price_sum_over(m: Map<i64, Sample>, keys: Set<i64>) -> int {
    keys.fold(0, price_step(m))
}

/// Sum of all prices stored in `m`.
pub open spec fn price_sum(m: Map<i64, Sample>) -> int {
    price_sum_over(m, m.dom())
}

/// Sum of the sales stored at the buckets of `m` listed in `keys`.
pub open spec fn sales_sum_over(m: Map<i64, Sample>, keys: Set<i64>) -> int {
    keys.fold(0, sales_step(m))
}

/// Total sales volume stored in `m`.
pub open spec fn sales_sum(m: Map<i64, Sample>) -> int {
    sales_sum_over(m, m.dom())
}

proof fn lemma_steps_commutative(m: Map<i64, Sample>)
    ensures
        vstd::set::fold::is_fun_commutative(price_step(m)),
        vstd::set::fold::is_fun_commutative(sales_step(m)),
{
    let f = price_step(m);
    let g = sales_step(m);
    assert forall|a1: i64, a2: i64, b: int| #[trigger] f(f(b, a2), a1) == f(f(b, a1), a2) by {}
    assert forall|a1: i64, a2: i64, b: int| #[trigger] g(g(b, a2), a1) == g(g(b, a1), a2) by {}
}

/// A channel's total sales volume is never negative: every sample's sales
/// figure is non-negative.
pub proof fn lemma_sales_sum_nonneg(m: Map<i64, Sample>, keys: Set<i64>)
    requires
        keys.finite(),
    ensures
        sales_sum_over(m, keys) >= 0,
{
    lemma_steps_commutative(m);
    let g = sales_step(m);
    let pred = (|s: Set<i64>| !s.finite() || s.fold(0, g) >= 0);
    assert(pred(Set::empty())) by {
        vstd::set::fold::lemma_fold_empty(0int, g);
    }
    assert forall|s: Set<i64>, a: i64| pred(s) && s.finite() && !s.contains(a) implies #[trigger] pred(
        s.insert(a),
    ) by {
        vstd::set::fold::lemma_fold_insert(s, 0int, g, a);
    }
    vstd::set::fold::lemma_finite_set_induct(keys, pred);
}

/// Walks an entry listing once and totals the prices and the sales of the
/// listed samples.
fn channel_totals(entries: &Vec<(i64, Sample)>, Ghost(m): Ghost<Map<i64, Sample>>) -> (r: (
    u128,
    u128,
))
    requires
        entry_listing(entries@, m),
    ensures
        r.0 as int == price_sum(m),
        r.1 as int == sales_sum(m),
        r.1 as int <= m.dom().len() * (u32::MAX as int),
{
    let ghost f = price_step(m);
    let ghost g = sales_step(m);
    proof {
        lemma_steps_commutative(m);
        vstd::set::fold::lemma_fold_empty(0int, f);
        vstd::set::fold::lemma_fold_empty(0int, g);
    }
    let mut price_acc: u128 = 0;
    let mut sales_acc: u128 = 0;
    let mut i: usize = 0;
    let ghost mut seen: Set<i64> = Set::empty();
    while i < entries.len()
        invariant
            entry_listing(entries@, m),
            i <= entries.len(),
            seen.finite(),
            seen.len() == i,
            forall|k: i64| #[trigger]
                seen.contains(k) <==> exists|j: int|
                    0 <= j < i && (#[trigger] entries@[j]).0 == k,
            price_acc as int == price_sum_over(m, seen),
            sales_acc as int == sales_sum_over(m, seen),
            price_acc as int <= i * (u64::MAX as int),
            sales_acc as int <= i * (u32::MAX as int),
        decreases entries.len() - i,
    {
        let (k, smp) = entries[i];
        proof {
            assert(m.contains_pair(entries@[i as int].0, entries@[i as int].1));
            assert(!seen.contains(k)) by {
                if seen.contains(k) {
                    let j = choose|j: int| 0 <= j < i && entries@[j].0 == k;
                    assert(entries@[j].0 != entries@[i as int].0);
                }
            }
            lemma_steps_commutative(m);
            vstd::set::fold::lemma_fold_insert(seen, 0int, price_step(m), k);
            vstd::set::fold::lemma_fold_insert(seen, 0int, sales_step(m), k);
            assert(price_acc as int + smp.price as int <= (i as int + 1) * (u64::MAX as int))
                by (nonlinear_arith)
                requires
                    price_acc as int <= i as int * (u64::MAX as int),
                    smp.price as int <= u64::MAX as int,
                    i as int >= 0,
            ;
            assert(sales_acc as int + smp.sales as int <= (i as int + 1) * (u32::MAX as int))
                by (nonlinear_arith)
                requires
                    sales_acc as int <= i as int * (u32::MAX as int),
                    smp.sales as int <= u32::MAX as int,
                    i as int >= 0,
            ;
            assert((i as int + 1) * (u64::MAX as int) <= (u64::MAX as int) * (u64::MAX as int)) by {
                vstd::arithmetic::mul::lemma_mul_inequality(
                    i as int + 1,
                    u64::MAX as int,
                    u64::MAX as int,
                );
            }
            assert((i as int + 1) * (u32::MAX as int) <= (u64::MAX as int) * (u32::MAX as int)) by {
                vstd::arithmetic::mul::lemma_mul_inequality(
                    i as int + 1,
                    u64::MAX as int,
                    u32::MAX as int,
                );
            }
        }
        price_acc = price_acc + (smp.price as u128);
        sales_acc = sales_acc + (smp.sales as u128);
        proof {
            seen = seen.insert(k);
        }
        i = i + 1;
    }
    proof {
        assert forall|k: i64| seen.contains(k) implies m.dom().contains(k) by {
            let j = choose|j: int| 0 <= j < entries@.len() && entries@[j].0 == k;
            assert(m.contains_pair(entries@[j].0, entries@[j].1));
        }
        assert forall|k: i64| m.dom().contains(k) implies seen.contains(k) by {
            let j = choose|j: int| 0 <= j < entries@.len() && (#[trigger] entries@[j]).0 == k;
        }
        assert(seen =~= m.dom());
    }
    (price_acc, sales_acc)
}

/// The merged sales series: for each time bucket present in either
/// channel, the sum of both channels' sales at that bucket. A bucket
/// present in only one channel passes through unchanged.
pub open spec fn combined_sales(a: Map<i64, Sample>, b: Map<i64, Sample>) -> Map<i64, int> {
    Map::new(
        |k: i64| a.dom().contains(k) || b.dom().contains(k),
        |k: i64|
            (if a.dom().contains(k) {
                a[k].sales as int
            } else {
                0
            }) + (if b.dom().contains(k) {
                b[k].sales as int
            } else {
                0
            }),
    )
}

/// `vals` lists, in the bucket order given by `ks`, the combined sales of
/// `c`; `ks` enumerates every bucket of `c` exactly once, in no
/// guaranteed order.
pub open spec fn sales_listing(ks: Seq<i64>, vals: Seq<u64>, c: Map<i64, int>) -> bool {
    &&& ks.no_duplicates()
    &&& vals.len() == ks.len()
    &&& forall|i: int|
        0 <= i < ks.len() ==> c.dom().contains(#[trigger] ks[i]) && vals[i] as int == c[ks[i]]
    &&& forall|k: i64| c.dom().contains(k) ==> ks.contains(k)
}

/// Looks a bucket up in an entry listing by linear search.
fn sales_at(entries: &Vec<(i64, Sample)>, Ghost(m): Ghost<Map<i64, Sample>>, k: i64) -> (r: Option<
    u32,
>)
    requires
        entry_listing(entries@, m),
    ensures
        m.dom().contains(k) ==> r == Some(m[k].sales),
        !m.dom().contains(k) ==> r is None,
{
    let mut i: usize = 0;
    while i < entries.len()
        invariant
            entry_listing(entries@, m),
            i <= entries.len(),
            forall|j: int| 0 <= j < i ==> (#[trigger] entries@[j]).0 != k,
        decreases entries.len() - i,
    {
        let (ck, smp) = entries[i];
        if ck == k {
            proof {
                assert(m.contains_pair(entries@[i as int].0, entries@[i as int].1));
            }
            return Some(smp.sales);
        }
        i = i + 1;
    }
    proof {
        if m.dom().contains(k) {
            let j = choose|j: int|
                0 <= j < entries@.len() && (#[trigger] entries@[j]).0 == k;
        }
    }
    None
}

/// `n1 / d1 <= n2 / d2`, stated over cross products; meaningful for
/// positive denominators.
pub open spec fn rat_le(n1: int, d1: int, n2: int, d2: int) -> bool {
    n1 * d2 <= n2 * d1
}

/// The representative average over the two channels' samples, as an exact
/// pair (summed prices, bucket count) of the selected channel; `None` when
/// both channels are empty.
///
/// A lone non-empty channel wins regardless of mode. In robust mode (not
/// `old_method`), a channel whose sales volume exceeds ten times the
/// other's is trusted alone; otherwise — and always with `old_method` —
/// the smaller of the two channel means is taken as the conservative
/// floor.
pub open spec fn spec_average(
    a: Map<i64, Sample>,
    b: Map<i64, Sample>,
    old_method: bool,
) -> Option<(int, int)> {
    let mean_a = (price_sum(a), a.dom().len() as int);
    let mean_b = (price_sum(b), b.dom().len() as int);
    if a.dom().len() == 0 && b.dom().len() == 0 {
        None
    } else if a.dom().len() == 0 {
        Some(mean_b)
    } else if b.dom().len() == 0 {
        Some(mean_a)
    } else if !old_method && sales_sum(a) > 10 * sales_sum(b) {
        Some(mean_a)
    } else if !old_method && sales_sum(b) > 10 * sales_sum(a) {
        Some(mean_b)
    } else if rat_le(mean_a.0, mean_a.1, mean_b.0, mean_b.1) {
        Some(mean_a)
    } else {
        Some(mean_b)
    }
}

/// For positive denominators, comparing two fractions by quotient first
/// and remainder cross products second agrees with comparing their cross
/// products directly.
proof fn lemma_fraction_compare(
    a: int,
    b: int,
    la: int,
    lb: int,
    qa: int,
    ra: int,
    qb: int,
    rb: int,
)
    requires
        la >= 1,
        lb >= 1,
        a == qa * la + ra,
        0 <= ra < la,
        b == qb * lb + rb,
        0 <= rb < lb,
    ensures
        rat_le(a, la, b, lb) <==> (qa < qb || (qa == qb && ra * lb <= rb * la)),
{
    let p = la * lb;
    assert(a * lb == qa * p + ra * lb) by (nonlinear_arith)
        requires
            a == qa * la + ra,
            p == la * lb,
    ;
    assert(b * la == qb * p + rb * la) by (nonlinear_arith)
        requires
            b == qb * lb + rb,
            p == la * lb,
    ;
    assert(p >= 1) by (nonlinear_arith)
        requires
            la >= 1,
            lb >= 1,
            p == la * lb,
    ;
    assert(0 <= ra * lb < p) by (nonlinear_arith)
        requires
            0 <= ra < la,
            lb >= 1,
            p == la * lb,
    ;
    assert(0 <= rb * la < p) by (nonlinear_arith)
        requires
            0 <= rb < lb,
            la >= 1,
            p == la * lb,
    ;
    if qa < qb {
        assert(qa * p + p <= qb * p) by (nonlinear_arith)
            requires
                qa + 1 <= qb,
                p >= 1,
        ;
    } else if qb < qa {
        assert(qb * p + p <= qa * p) by (nonlinear_arith)
            requires
                qb + 1 <= qa,
                p >= 1,
        ;
    }
}

/// Law: upserting a sample at an already-occupied bucket leaves exactly
/// one entry there, holding the later sample; no other bucket changes.
pub proof fn lemma_last_write_wins(m: Map<i64, Sample>, k: i64, v1: Sample, v2: Sample)
    ensures
        m.insert(k, v1).insert(k, v2) == m.insert(k, v2),
        m.insert(k, v2)[k] == v2,
        m.insert(k, v2).dom() == m.dom().insert(k),
{
    assert(m.insert(k, v1).insert(k, v2) =~= m.insert(k, v2));
    assert(m.insert(k, v2).dom() =~= m.dom().insert(k));
}

/// Law: whenever both channels hold samples, the legacy selector reports
/// the smaller of the two channel means — the reported pair is one of the
/// two exact means and its value is at most either mean. The robust
/// selector falls back to the same choice when neither channel dominates.
pub proof fn lemma_legacy_min(a: Map<i64, Sample>, b: Map<i64, Sample>)
    requires
        a.dom().len() > 0,
        b.dom().len() > 0,
    ensures
        ({
            let avg = spec_average(a, b, true);
            let mean_a = (price_sum(a), a.dom().len() as int);
            let mean_b = (price_sum(b), b.dom().len() as int);
            &&& avg is Some
            &&& (avg.unwrap() == mean_a || avg.unwrap() == mean_b)
            &&& rat_le(avg.unwrap().0, avg.unwrap().1, mean_a.0, mean_a.1)
            &&& rat_le(avg.unwrap().0, avg.unwrap().1, mean_b.0, mean_b.1)
        }),
{
}

/// Law: when the auction channel's sales volume exceeds ten times the
/// buy-it-now channel's, the robust selector reports exactly the auction
/// mean, independent of any price value.
pub proof fn lemma_auction_dominance(a: Map<i64, Sample>, b: Map<i64, Sample>)
    requires
        a.dom().len() > 0,
        sales_sum(a) > 10 * sales_sum(b),
    ensures
        spec_average(a, b, false) == Some((price_sum(a), a.dom().len() as int)),
{
}

/// Law: when the buy-it-now channel's sales volume exceeds ten times the
/// auction channel's, the robust selector reports exactly the buy-it-now
/// mean, independent of any price value.
pub proof fn lemma_bin_dominance(a: Map<i64, Sample>, b: Map<i64, Sample>)
    requires
        a.dom().finite(),
        b.dom().finite(),
        b.dom().len() > 0,
        sales_sum(b) > 10 * sales_sum(a),
    ensures
        spec_average(a, b, false) == Some((price_sum(b), b.dom().len() as int)),
{
    lemma_sales_sum_nonneg(a, a.dom());
    lemma_sales_sum_nonneg(b, b.dom());
}

/// Law: when neither channel's sales volume exceeds ten times the
/// other's, the robust selector and the legacy selector agree.
pub proof fn lemma_no_dominance(a: Map<i64, Sample>, b: Map<i64, Sample>)
    requires
        a.dom().len() > 0,
        b.dom().len() > 0,
        sales_sum(a) <= 10 * sales_sum(b),
        sales_sum(b) <= 10 * sales_sum(a),
    ensures
        spec_average(a, b, false) == spec_average(a, b, true),
{
}

/// The per-item sample store: one bucket map per channel.
pub struct AvgVec {
    auctions: dashmap::DashMap<i64, Sample>,
    bins: dashmap::DashMap<i64, Sample>,
}

impl AvgVec {
    /// The auction channel's samples, by time bucket.
    pub closed spec fn auctions_map(&self) -> Map<i64, Sample> {
        stored_samples(self.auctions)
    }

    /// The buy-it-now channel's samples, by time bucket.
    pub closed spec fn bins_map(&self) -> Map<i64, Sample> {
        stored_samples(self.bins)
    }

    /// The samples of the given channel, by time bucket.
    pub open spec fn channel_map(&self, channel: Channel) -> Map<i64, Sample> {
        match channel {
            Channel::Auction => self.auctions_map(),
            Channel::BuyItNow => self.bins_map(),
        }
    }

    /// A store with no samples in either channel.
    pub fn new() -> (s: Self)
        ensures
            s.auctions_map() == Map::<i64, Sample>::empty(),
            s.bins_map() == Map::<i64, Sample>::empty(),
    {
        AvgVec { auctions: dash_new(), bins: dash_new() }
    }

    /// A store holding a single sample.
    pub fn from(sample: Sample, time_t: i64, channel: Channel) -> (s: Self)
        ensures
            s.channel_map(channel) == Map::<i64, Sample>::empty().insert(time_t, sample),
            channel == Channel::Auction ==> s.bins_map() == Map::<i64, Sample>::empty(),
            channel == Channel::BuyItNow ==> s.auctions_map() == Map::<i64, Sample>::empty(),
    {
        AvgVec::new().update(sample, time_t, channel)
    }

    /// Upserts a sample into the channel's mapping: any prior sample at the
    /// same `(channel, time_t)` is overwritten, everything else is kept.
    pub fn update(self, sample: Sample, time_t: i64, channel: Channel) -> (s: Self)
        ensures
            s.channel_map(channel) == self.channel_map(channel).insert(time_t, sample),
            channel == Channel::Auction ==> s.bins_map() == self.bins_map(),
            channel == Channel::BuyItNow ==> s.auctions_map() == self.auctions_map(),
    {
        let AvgVec { mut auctions, mut bins } = self;
        match channel {
            Channel::Auction => dash_insert(&mut auctions, time_t, sample),
            Channel::BuyItNow => dash_insert(&mut bins, time_t, sample),
        }
        AvgVec { auctions, bins }
    }

    /// The representative average price of this store's samples, exactly
    /// as `spec_average` selects it; fails if and only if both channels
    /// are empty.
    pub fn get_average(&self, old_method: bool) -> (r: Result<MeanPrice, EmptyAggregateError>)
        ensures
            ({
                let avg = spec_average(self.auctions_map(), self.bins_map(), old_method);
                &&& (r is Err <==> avg is None)
                &&& (r is Err <==> self.auctions_map().dom().len() == 0
                    && self.bins_map().dom().len() == 0)
                &&& (r is Ok ==> avg == Some(
                    (r.unwrap().sum as int, r.unwrap().count as int),
                ) && r.unwrap().count > 0)
            }),
    {
        let ea = dash_entries(&self.auctions);
        let eb = dash_entries(&self.bins);
        let ghost ma = self.auctions_map();
        let ghost mb = self.bins_map();
        let (pa, sa) = channel_totals(&ea, Ghost(ma));
        let (pb, sb) = channel_totals(&eb, Ghost(mb));
        let la = ea.len();
        let lb = eb.len();
        if la == 0 && lb == 0 {
            return Err(EmptyAggregateError);
        }
        if la == 0 {
            return Ok(MeanPrice { sum: pb, count: lb as u64 });
        }
        if lb == 0 {
            return Ok(MeanPrice { sum: pa, count: la as u64 });
        }
        if !old_method {
            proof {
                assert((la as int) * (u32::MAX as int) <= (u64::MAX as int) * (u32::MAX as int))
                    by {
                    vstd::arithmetic::mul::lemma_mul_inequality(
                        la as int,
                        u64::MAX as int,
                        u32::MAX as int,
                    );
                }
                assert((lb as int) * (u32::MAX as int) <= (u64::MAX as int) * (u32::MAX as int))
                    by {
                    vstd::arithmetic::mul::lemma_mul_inequality(
                        lb as int,
                        u64::MAX as int,
                        u32::MAX as int,
                    );
                }
            }
            if sa > 10 * sb {
                return Ok(MeanPrice { sum: pa, count: la as u64 });
            }
            if sb > 10 * sa {
                return Ok(MeanPrice { sum: pb, count: lb as u64 });
            }
        }
        let la_w = la as u128;
        let lb_w = lb as u128;
        let qa = pa / la_w;
        let ra = pa % la_w;
        let qb = pb / lb_w;
        let rb = pb % lb_w;
        proof {
            vstd::arithmetic::div_mod::lemma_fundamental_div_mod(pa as int, la_w as int);
            vstd::arithmetic::div_mod::lemma_fundamental_div_mod(pb as int, lb_w as int);
            assert((ra as int) * (lb_w as int) <= (u64::MAX as int) * (u64::MAX as int))
                by (nonlinear_arith)
                requires
                    0 <= ra as int <= u64::MAX as int,
                    0 <= lb_w as int <= u64::MAX as int,
            ;
            assert((rb as int) * (la_w as int) <= (u64::MAX as int) * (u64::MAX as int))
                by (nonlinear_arith)
                requires
                    0 <= rb as int <= u64::MAX as int,
                    0 <= la_w as int <= u64::MAX as int,
            ;
            lemma_fraction_compare(
                pa as int,
                pb as int,
                la as int,
                lb as int,
                qa as int,
                ra as int,
                qb as int,
                rb as int,
            );
        }
        let a_le_b = if qa != qb {
            qa < qb
        } else {
            ra * lb_w <= rb * la_w
        };
        if a_le_b {
            Ok(MeanPrice { sum: pa, count: la as u64 })
        } else {
            Ok(MeanPrice { sum: pb, count: lb as u64 })
        }
    }

    /// One sales figure per distinct time bucket observed in either
    /// channel: the sum of both channels' sales where a bucket is present
    /// in both, the lone channel's figure where it is not. The emission
    /// order follows the maps' iteration order and is not
    /// timestamp-sorted; callers needing temporal order must sort.
    pub fn get_sales(&self) -> (r: Vec<u64>)
        ensures
            exists|ks: Seq<i64>|
                sales_listing(ks, r@, combined_sales(self.auctions_map(), self.bins_map())),
    {
        let ea = dash_entries(&self.auctions);
        let eb = dash_entries(&self.bins);
        let ghost ma = self.auctions_map();
        let ghost mb = self.bins_map();
        let ghost comb = combined_sales(ma, mb);
        let mut out: Vec<u64> = Vec::new();
        let ghost mut ks: Seq<i64> = Seq::empty();
        let mut i: usize = 0;
        while i < ea.len()
            invariant
                entry_listing(ea@, ma),
                entry_listing(eb@, mb),
                comb == combined_sales(ma, mb),
                i <= ea.len(),
                out@.len() == i,
                ks.len() == i,
                ks.no_duplicates(),
                forall|j: int| 0 <= j < i ==> ks[j] == (#[trigger] ea@[j]).0,
                forall|j: int|
                    0 <= j < i ==> comb.dom().contains(#[trigger] ks[j]) && out@[j] as int
                        == comb[ks[j]],
            decreases ea.len() - i,
        {
            let (k, smp) = ea[i];
            let extra: u64 = match sales_at(&eb, Ghost(mb), k) {
                Some(s) => s as u64,
                None => 0u64,
            };
            proof {
                assert(ma.contains_pair(ea@[i as int].0, ea@[i as int].1));
            }
            out.push((smp.sales as u64) + extra);
            proof {
                assert forall|p: int, q: int| 0 <= p < q < ks.push(k).len() implies ks.push(k)[p]
                    != ks.push(k)[q] by {
                    if q == ks.len() {
                        assert(ea@[p].0 != ea@[i as int].0);
                    }
                }
                ks = ks.push(k);
            }
            i = i + 1;
        }
        let mut j: usize = 0;
        while j < eb.len()
            invariant
                entry_listing(ea@, ma),
                entry_listing(eb@, mb),
                comb == combined_sales(ma, mb),
                j <= eb.len(),
                out@.len() == ks.len(),
                ks.len() >= ea@.len(),
                ks.no_duplicates(),
                forall|jj: int| 0 <= jj < ea@.len() ==> ks[jj] == (#[trigger] ea@[jj]).0,
                forall|p: int|
                    0 <= p < ks.len() ==> comb.dom().contains(#[trigger] ks[p]) && out@[p] as int
                        == comb[ks[p]],
                forall|p: int|
                    ea@.len() <= p < ks.len() ==> !ma.dom().contains(#[trigger] ks[p]),
                forall|p: int|
                    ea@.len() <= p < ks.len() ==> exists|jj: int|
                        0 <= jj < j && (#[trigger] ks[p]) == eb@[jj].0,
                forall|jj: int| 0 <= jj < j ==> ks.contains((#[trigger] eb@[jj]).0),
            decreases eb.len() - j,
        {
            let (k, smp) = eb[j];
            proof {
                assert(mb.contains_pair(eb@[j as int].0, eb@[j as int].1));
            }
            match sales_at(&ea, Ghost(ma), k) {
                Some(_) => {
                    proof {
                        let p = choose|p: int|
                            0 <= p < ea@.len() && (#[trigger] ea@[p]).0 == k;
                        assert(ks[p] == k);
                        assert(ks.contains(k));
                    }
                },
                None => {
                    out.push(smp.sales as u64);
                    proof {
                        assert(!ks.contains(k)) by {
                            if ks.contains(k) {
                                let p = choose|p: int| 0 <= p < ks.len() && ks[p] == k;
                                if p < ea@.len() {
                                    assert(ma.contains_pair(ea@[p].0, ea@[p].1));
                                } else {
                                    let jj = choose|jj: int|
                                        0 <= jj < j && (#[trigger] ks[p]) == eb@[jj].0;
                                    assert(eb@[jj].0 != eb@[j as int].0);
                                }
                            }
                        }
                        assert forall|p: int, q: int| 0 <= p < q < ks.push(k).len() implies ks.push(
                            k,
                        )[p] != ks.push(k)[q] by {
                            if q == ks.len() {
                                assert(ks[p] != k);
                            }
                        }
                        let ghost ks2 = ks.push(k);
                        assert(ks2[ks2.len() - 1] == k);
                        assert forall|jj: int| 0 <= jj < j implies ks2.contains(
                            (#[trigger] eb@[jj]).0,
                        ) by {
                            let p = choose|p: int| 0 <= p < ks.len() && ks[p] == eb@[jj].0;
                            assert(ks2[p] == eb@[jj].0);
                        }
                        ks = ks2;
                    }
                },
            }
            j = j + 1;
        }
        proof {
            assert forall|k: i64| comb.dom().contains(k) implies ks.contains(k) by {
                if ma.dom().contains(k) {
                    let p = choose|p: int|
                        0 <= p < ea@.len() && (#[trigger] ea@[p]).0 == k;
                    assert(ks[p] == k);
                } else {
                    let jj = choose|jj: int|
                        0 <= jj < eb@.len() && (#[trigger] eb@[jj]).0 == k;
                }
            }
            assert(sales_listing(ks, out@, comb));
        }
        out
    }
}

} // verus!
