//! Orders sharded by price band and time window.
use crate::indexer::spot_order::{OrderStatus, OrderType, SpotOrder};
use crate::matchers::types::MatcherOrderUpdate;
use crate::middleware::order_shard::{
    lemma_best_buys_listings_same, lemma_best_sells_listings_same, best_buys_listing, best_sells_listing, count_fits, id_views, level_at, level_listing, order_count,
    side_without_ids, LevelMap,
    price_range_of, removal_keeps_level, side_after_add, side_after_remove, side_after_status,
    side_after_update, update_keeps_order, OrderShard, PriceMap,
};
use vstd::prelude::*;

verus! {

/// A price band and a time window.
#[derive(Clone, Copy, Debug)]
pub struct PriceTimeRange {
    pub min_price: u128,
    pub max_price: u128,
    pub min_time: u64,
    pub max_time: u64,
}

/// What one shard holds.
#[derive(Debug)]
pub struct ShardDetails {
    pub shard_index: usize,
    pub buy_orders_count: usize,
    pub sell_orders_count: usize,
    pub buy_price_range: Option<(u128, u128)>,
    pub sell_price_range: Option<(u128, u128)>,
    pub time_range: Option<(u64, u64)>,
}

/// What every shard holds, with totals.
#[derive(Debug)]
pub struct ShardOrdersDetailedResponse {
    pub shard_details: Vec<ShardDetails>,
    pub total_buy_orders: usize,
    pub total_sell_orders: usize,
}

/// Number of price bands.
pub const PRICE_BANDS: usize = 8;

/// Number of time windows per band.
pub const TIME_WINDOWS: u64 = 100;

/// Length of a time window, in seconds: four hours.
pub const TIME_INTERVAL: u64 = 14400;

/// The `p`-th price band: below 40 000 · 10⁶, then bands of 5 000 · 10⁶ up to
/// 70 000 · 10⁶, then everything above.
pub open spec fn price_band(p: int) -> (u128, u128) {
    if p == 0 {
        (0, 40_000_000_000)
    } else if p < 7 {
        (((35 + 5 * p) * 1_000_000_000) as u128, ((40 + 5 * p) * 1_000_000_000) as u128)
    } else {
        (70_000_000_000, u128::MAX)
    }
}

/// `a - b`, or zero when `b` exceeds `a`.
pub open spec fn sat_sub(a: int, b: int) -> u64 {
    if a >= b {
        (a - b) as u64
    } else {
        0
    }
}

/// The `k`-th range generated at time `now`: band `k / 100`, window `k % 100` counted back
/// from `now`.
pub open spec fn range_at(now: u64, k: int) -> PriceTimeRange {
    PriceTimeRange {
        min_price: price_band(k / 100).0,
        max_price: price_band(k / 100).1,
        min_time: sat_sub(now as int, (k % 100 + 1) * 14400),
        max_time: sat_sub(now as int, (k % 100) * 14400),
    }
}

/// `r` is the list of ranges generated at time `now`.
pub open spec fn ranges_at(now: u64, r: Seq<PriceTimeRange>) -> bool {
    r.len() == 800 && forall|k: int| 0 <= k < 800 ==> #[trigger] r[k] == range_at(now, k)
}

fn band(p: usize) -> (r: (u128, u128))
    requires
        p < 8,
    ensures
        r == price_band(p as int),
{
    if p == 0 {
        (0, 40_000 * 1_000_000)
    } else if p < 7 {
        let lo: u128 = (35 + 5 * p as u128) * 1_000_000_000;
        let hi: u128 = (40 + 5 * p as u128) * 1_000_000_000;
        (lo, hi)
    } else {
        (70_000 * 1_000_000, u128::MAX)
    }
}

/// The ranges of eight price bands by a hundred four-hour windows counted back from `now`.
pub fn generate_price_time_ranges(current_time: u64) -> (r: Vec<PriceTimeRange>)
    ensures
        ranges_at(current_time, r@),
{
    let mut ranges: Vec<PriceTimeRange> = Vec::new();
    let time_interval: u64 = 4 * 60 * 60;
    let mut p: usize = 0;
    while p < PRICE_BANDS
        invariant
            p <= 8,
            time_interval == 14400,
            ranges@.len() == p * 100,
            forall|k: int| 0 <= k < p * 100 ==> #[trigger] ranges@[k] == range_at(current_time, k),
        decreases 8 - p,
    {
        let (min_price, max_price) = band(p);
        let mut i: u64 = 0;
        while i < TIME_WINDOWS
            invariant
                p < 8,
                i <= 100,
                time_interval == 14400,
                (min_price, max_price) == price_band(p as int),
                ranges@.len() == p * 100 + i,
                forall|k: int|
                    0 <= k < p * 100 + i ==> #[trigger] ranges@[k] == range_at(current_time, k),
            decreases 100 - i,
        {
            let max_time = current_time.saturating_sub(i * time_interval);
            let min_time = current_time.saturating_sub((i + 1) * time_interval);
            ranges.push(PriceTimeRange { min_price, max_price, min_time, max_time });
            proof {
                let k = p * 100 + i;
                assert(k / 100 == p as int);
                assert(k % 100 == i as int);
                assert(ranges@[k as int] == range_at(current_time, k as int));
            }
            i = i + 1;
        }
        p = p + 1;
    }
    ranges
}

/// `price` and `time` fall in `r`, bounds included.
pub open spec fn in_range(r: PriceTimeRange, price: u128, time: u64) -> bool {
    r.min_price <= price <= r.max_price && r.min_time <= time <= r.max_time
}

/// `i` is the first range of `rs` that holds `price` and `time`.
pub open spec fn first_match(rs: Seq<PriceTimeRange>, price: u128, time: u64, i: int) -> bool {
    &&& 0 <= i < rs.len()
    &&& in_range(rs[i], price, time)
    &&& forall|j: int| 0 <= j < i ==> !in_range(#[trigger] rs[j], price, time)
}

/// The shard that `price` and `time` go to: that of the first range holding them.
pub open spec fn shard_for(rs: Seq<PriceTimeRange>, price: u128, time: u64) -> Option<int> {
    if exists|i: int| first_match(rs, price, time, i) {
        Some(choose|i: int| first_match(rs, price, time, i))
    } else {
        None
    }
}

/// There is one first range.
pub proof fn lemma_first_match_unique(rs: Seq<PriceTimeRange>, price: u128, time: u64, i: int, j: int)
    requires
        first_match(rs, price, time, i),
        first_match(rs, price, time, j),
    ensures
        i == j,
{
    if i < j {
        assert(!in_range(rs[i], price, time));
    } else if j < i {
        assert(!in_range(rs[j], price, time));
    }
}

/// What a shard holds: its buy levels, then its sell levels.
pub type ShardView = (PriceMap, PriceMap);

/// The levels of one side of a shard.
pub open spec fn side_of(v: ShardView, t: OrderType) -> PriceMap {
    match t {
        OrderType::Buy => v.0,
        OrderType::Sell => v.1,
    }
}

/// A shard with the levels of one side replaced.
pub open spec fn with_side(v: ShardView, t: OrderType, c: PriceMap) -> ShardView {
    match t {
        OrderType::Buy => (c, v.1),
        OrderType::Sell => (v.0, c),
    }
}

/// The shards after one side of the shard for `price` and `time` changes by `f`.
pub open spec fn change_side(
    v: Seq<ShardView>,
    rs: Seq<PriceTimeRange>,
    price: u128,
    time: u64,
    t: OrderType,
    f: spec_fn(PriceMap) -> PriceMap,
) -> Seq<ShardView> {
    match shard_for(rs, price, time) {
        Some(i) => v.update(i, with_side(v[i], t, f(side_of(v[i], t)))),
        None => v,
    }
}

/// The shards after `o` is added.
pub open spec fn pool_after_add(v: Seq<ShardView>, rs: Seq<PriceTimeRange>, o: SpotOrder) -> Seq<
    ShardView,
> {
    change_side(v, rs, o.price, o.timestamp, o.order_type, |c: PriceMap| side_after_add(c, o))
}

/// The shards after order `id` at `price` leaves the shard for `price` and `time`.
pub open spec fn pool_after_remove(
    v: Seq<ShardView>,
    rs: Seq<PriceTimeRange>,
    id: Seq<char>,
    price: u128,
    time: u64,
    t: OrderType,
) -> Seq<ShardView> {
    change_side(v, rs, price, time, t, |c: PriceMap| side_after_remove(c, id, price))
}

/// The shards after order `id` at `price` is updated in the shard for `price` and `time`.
pub open spec fn pool_after_update(
    v: Seq<ShardView>,
    rs: Seq<PriceTimeRange>,
    id: Seq<char>,
    price: u128,
    time: u64,
    amount: u128,
    status: Option<OrderStatus>,
    t: OrderType,
) -> Seq<ShardView> {
    change_side(v, rs, price, time, t, |c: PriceMap| side_after_update(c, id, price, amount, status))
}

/// The shards after a matcher's report `u`.
pub open spec fn pool_after_report(v: Seq<ShardView>, rs: Seq<PriceTimeRange>, u: MatcherOrderUpdate) -> Seq<
    ShardView,
> {
    pool_after_update(v, rs, u.order_id@, u.price, u.timestamp, u.new_amount, u.status, u.order_type)
}

/// The shards after the reports `us`, in order.
pub open spec fn pool_after_reports(
    v: Seq<ShardView>,
    rs: Seq<PriceTimeRange>,
    us: Seq<MatcherOrderUpdate>,
) -> Seq<ShardView>
    decreases us.len(),
{
    if us.len() == 0 {
        v
    } else {
        pool_after_report(pool_after_reports(v, rs, us.drop_last()), rs, us.last())
    }
}

/// Removing order `id` at `price` from the shard for `price` and `time` keeps its level.
pub open spec fn pool_removal_ok(
    v: Seq<ShardView>,
    rs: Seq<PriceTimeRange>,
    id: Seq<char>,
    price: u128,
    time: u64,
    t: OrderType,
) -> bool {
    match shard_for(rs, price, time) {
        Some(i) => removal_keeps_level(side_of(v[i], t), id, price),
        None => true,
    }
}

/// Updating order `id` at `price` in the shard for `price` and `time` does not zero it.
pub open spec fn pool_update_ok(
    v: Seq<ShardView>,
    rs: Seq<PriceTimeRange>,
    id: Seq<char>,
    price: u128,
    time: u64,
    amount: u128,
    t: OrderType,
) -> bool {
    match shard_for(rs, price, time) {
        Some(i) => update_keeps_order(side_of(v[i], t), id, price, amount),
        None => true,
    }
}

/// Each report of `us`, applied in turn, zeroes no order that is there.
pub open spec fn pool_reports_ok(
    v: Seq<ShardView>,
    rs: Seq<PriceTimeRange>,
    us: Seq<MatcherOrderUpdate>,
) -> bool {
    forall|k: int|
        0 <= k < us.len() ==> pool_update_ok(
            pool_after_reports(v, rs, us.take(k)),
            rs,
            (#[trigger] us[k]).order_id@,
            us[k].price,
            us[k].timestamp,
            us[k].new_amount,
            us[k].order_type,
        )
}

/// `a` comes before `b` by price alone: higher first for `desc`, lower first otherwise.
pub open spec fn price_before(a: SpotOrder, b: SpotOrder, desc: bool) -> bool {
    if desc {
        a.price > b.price
    } else {
        a.price < b.price
    }
}

/// Index of the first order that no other order comes before by price.
pub open spec fn best_price_index(s: Seq<SpotOrder>, desc: bool) -> int
    decreases s.len(),
{
    if s.len() <= 1 {
        0
    } else {
        let j = best_price_index(s.drop_last(), desc);
        if price_before(s.last(), s[j], desc) {
            s.len() - 1
        } else {
            j
        }
    }
}

/// The first best order is an order of the sequence.
pub proof fn lemma_best_price_index_bounds(s: Seq<SpotOrder>, desc: bool)
    ensures
        s.len() > 0 ==> 0 <= best_price_index(s, desc) < s.len(),
    decreases s.len(),
{
    if s.len() > 1 {
        lemma_best_price_index_bounds(s.drop_last(), desc);
    }
}

/// The stable sort of `s` by price: the first best order, then the sort of the rest.
pub open spec fn sort_by_price(s: Seq<SpotOrder>, desc: bool) -> Seq<SpotOrder>
    decreases s.len(),
{
    if s.len() == 0 {
        s
    } else {
        proof {
            lemma_best_price_index_bounds(s, desc);
        }
        seq![s[best_price_index(s, desc)]] + sort_by_price(s.remove(best_price_index(s, desc)), desc)
    }
}

proof fn lemma_best_price_is_best(s: Seq<SpotOrder>, desc: bool)
    requires
        s.len() > 0,
    ensures
        forall|k: int|
            0 <= k < s.len() ==> !price_before(#[trigger] s[k], s[best_price_index(s, desc)], desc),
    decreases s.len(),
{
    lemma_best_price_index_bounds(s, desc);
    if s.len() > 1 {
        let p = s.drop_last();
        lemma_best_price_is_best(p, desc);
        lemma_best_price_index_bounds(p, desc);
        let j = best_price_index(p, desc);
        assert(p[j] == s[j]);
        assert forall|k: int| 0 <= k < s.len() implies !price_before(
            #[trigger] s[k],
            s[best_price_index(s, desc)],
            desc,
        ) by {
            if k < s.len() - 1 {
                assert(s[k] == p[k]);
            }
        }
    }
}

/// Sorting by price keeps exactly the orders it was given.
pub proof fn lemma_sort_by_price_perm(s: Seq<SpotOrder>, desc: bool)
    ensures
        sort_by_price(s, desc).to_multiset() == s.to_multiset(),
        sort_by_price(s, desc).len() == s.len(),
    decreases s.len(),
{
    broadcast use vstd::multiset::group_multiset_axioms;

    if s.len() > 0 {
        lemma_best_price_index_bounds(s, desc);
        let i = best_price_index(s, desc);
        let rest = s.remove(i);
        lemma_sort_by_price_perm(rest, desc);
        let r = sort_by_price(s, desc);
        assert(r =~= sort_by_price(rest, desc).insert(0, s[i]));
        vstd::seq_lib::to_multiset_insert(sort_by_price(rest, desc), 0, s[i]);
        vstd::seq_lib::to_multiset_remove(s, i);
        assert(s.to_multiset().count(s[i]) > 0) by {
            s.to_multiset_ensures();
            assert(s.contains(s[i]));
        }
        assert(s.to_multiset().remove(s[i]).insert(s[i]) =~= s.to_multiset());
    } else {
        assert(sort_by_price(s, desc) =~= s);
    }
}

proof fn lemma_same_multiset_contains(a: Seq<SpotOrder>, b: Seq<SpotOrder>, x: SpotOrder)
    requires
        a.to_multiset() == b.to_multiset(),
        a.contains(x),
    ensures
        b.contains(x),
{
    a.to_multiset_ensures();
    b.to_multiset_ensures();
    assert(a.to_multiset().count(x) > 0);
    assert(b.to_multiset().count(x) > 0);
}

/// Sorted by price: descending for `desc`, ascending otherwise.
pub open spec fn price_sorted(r: Seq<SpotOrder>, desc: bool) -> bool {
    forall|i: int, j: int|
        0 <= i < j < r.len() ==> if desc {
            r[i].price >= r[j].price
        } else {
            r[i].price <= r[j].price
        }
}

/// The sort by price is sorted by price.
pub proof fn lemma_sort_by_price_sorted(s: Seq<SpotOrder>, desc: bool)
    ensures
        price_sorted(sort_by_price(s, desc), desc),
    decreases s.len(),
{
    if s.len() > 0 {
        lemma_best_price_index_bounds(s, desc);
        lemma_best_price_is_best(s, desc);
        let i0 = best_price_index(s, desc);
        let rest = s.remove(i0);
        lemma_sort_by_price_sorted(rest, desc);
        lemma_sort_by_price_perm(rest, desc);
        let r = sort_by_price(s, desc);
        let sr = sort_by_price(rest, desc);
        assert forall|i: int, j: int| 0 <= i < j < r.len() implies (if desc {
            r[i].price >= r[j].price
        } else {
            r[i].price <= r[j].price
        }) by {
            assert(r[j] == sr[j - 1]);
            if i == 0 {
                assert(sr.contains(sr[j - 1]));
                lemma_same_multiset_contains(sr, rest, sr[j - 1]);
                let k = choose|k: int| 0 <= k < rest.len() && rest[k] == sr[j - 1];
                let k2 = if k < i0 {
                    k
                } else {
                    k + 1
                };
                assert(rest[k] == s[k2]);
                assert(!price_before(s[k2], s[i0], desc));
            } else {
                assert(r[i] == sr[i - 1]);
            }
        }
    }
}

fn best_price(v: &Vec<SpotOrder>, desc: bool) -> (r: usize)
    requires
        v@.len() > 0,
    ensures
        r == best_price_index(v@, desc),
        r < v@.len(),
{
    let n = v.len();
    let mut best: usize = 0;
    let mut j: usize = 1;
    assert(v@.take(1).len() == 1);
    while j < n
        invariant
            n == v@.len(),
            1 <= j <= n,
            best < j,
            best == best_price_index(v@.take(j as int), desc),
        decreases n - j,
    {
        assert(v@.take(j + 1).drop_last() =~= v@.take(j as int));
        assert(v@.take(j + 1)[best as int] == v@[best as int]);
        let better = if desc {
            v[j].price > v[best].price
        } else {
            v[j].price < v[best].price
        };
        if better {
            best = j;
        }
        j = j + 1;
    }
    assert(v@.take(n as int) =~= v@);
    best
}

/// Sorts orders by price, stably.
fn sort_orders_by_price(v: Vec<SpotOrder>, desc: bool) -> (r: Vec<SpotOrder>)
    ensures
        r@ == sort_by_price(v@, desc),
{
    let ghost v0 = v@;
    let mut rem = v;
    let mut out: Vec<SpotOrder> = Vec::new();
    while rem.len() > 0
        invariant
            sort_by_price(v0, desc) == out@ + sort_by_price(rem@, desc),
        decreases rem@.len(),
    {
        let i = best_price(&rem, desc);
        let ghost before = rem@;
        let ghost out_before = out@;
        let x = rem.remove(i);
        out.push(x);
        assert(sort_by_price(before, desc) == seq![x] + sort_by_price(rem@, desc));
        assert(out_before + sort_by_price(before, desc) =~= out@ + sort_by_price(rem@, desc));
    }
    assert(out@ + sort_by_price(rem@, desc) =~= out@);
    out
}

/// `ls` holds, shard by shard, a listing of each shard's buy levels, highest price first.
pub open spec fn buy_listings(v: Seq<ShardView>, ls: Seq<Seq<SpotOrder>>) -> bool {
    ls.len() == v.len() && forall|i: int| 0 <= i < v.len() ==> best_buys_listing(v[i].0, #[trigger] ls[i])
}

/// `ls` holds, shard by shard, a listing of each shard's sell levels, lowest price first.
pub open spec fn sell_listings(v: Seq<ShardView>, ls: Seq<Seq<SpotOrder>>) -> bool {
    ls.len() == v.len() && forall|i: int| 0 <= i < v.len() ==> best_sells_listing(v[i].1, #[trigger] ls[i])
}

/// `n` empty shards.
pub open spec fn empty_shards(n: nat) -> Seq<ShardView> {
    Seq::new(n, |i: int| (Map::<u128, LevelMap>::empty(), Map::<u128, LevelMap>::empty()))
}

/// `r` is every shard's buy orders, highest price first, stably: within a price, shard after
/// shard, each shard's own order.
pub open spec fn best_buys_of(v: Seq<ShardView>, r: Seq<SpotOrder>) -> bool {
    exists|ls: Seq<Seq<SpotOrder>>| #[trigger] buy_listings(v, ls) && r == sort_by_price(ls.flatten(), true)
}

/// `r` is every shard's sell orders, lowest price first, stably: within a price, shard after
/// shard, each shard's own order.
pub open spec fn best_sells_of(v: Seq<ShardView>, r: Seq<SpotOrder>) -> bool {
    exists|ls: Seq<Seq<SpotOrder>>| #[trigger] sell_listings(v, ls) && r == sort_by_price(ls.flatten(), false)
}

/// Runs that hold, run by run, the same elements hold the same elements put together.
pub proof fn lemma_flatten_same<A>(x: Seq<Seq<A>>, y: Seq<Seq<A>>)
    requires
        x.len() == y.len(),
        forall|i: int| 0 <= i < x.len() ==> #[trigger] x[i].to_multiset() == y[i].to_multiset(),
    ensures
        x.flatten().to_multiset() == y.flatten().to_multiset(),
    decreases x.len(),
{
    broadcast use vstd::multiset::group_multiset_axioms;

    if x.len() == 0 {
        assert(x.flatten() =~= Seq::<A>::empty());
        assert(y.flatten() =~= Seq::<A>::empty());
    } else {
        let n = x.len() - 1;
        lemma_flatten_same(x.drop_last(), y.drop_last());
        assert(x =~= x.drop_last().push(x[n]));
        assert(y =~= y.drop_last().push(y[n]));
        x.drop_last().lemma_flatten_push(x[n]);
        y.drop_last().lemma_flatten_push(y[n]);
        vstd::seq_lib::lemma_multiset_commutative(x.drop_last().flatten(), x[n]);
        vstd::seq_lib::lemma_multiset_commutative(y.drop_last().flatten(), y[n]);
    }
}

/// Two listings of the pool's buys hold the same orders.
pub proof fn lemma_best_buys_same(v: Seq<ShardView>, r1: Seq<SpotOrder>, r2: Seq<SpotOrder>)
    requires
        best_buys_of(v, r1),
        best_buys_of(v, r2),
    ensures
        r1.to_multiset() == r2.to_multiset(),
{
    let l1 = choose|ls: Seq<Seq<SpotOrder>>| #[trigger] buy_listings(v, ls) && r1 == sort_by_price(ls.flatten(), true);
    let l2 = choose|ls: Seq<Seq<SpotOrder>>| #[trigger] buy_listings(v, ls) && r2 == sort_by_price(ls.flatten(), true);
    assert forall|i: int| 0 <= i < l1.len() implies #[trigger] l1[i].to_multiset() == l2[i].to_multiset() by {
        lemma_best_buys_listings_same(v[i].0, l1[i], l2[i]);
    }
    lemma_flatten_same(l1, l2);
    lemma_sort_by_price_perm(l1.flatten(), true);
    lemma_sort_by_price_perm(l2.flatten(), true);
}

/// Two listings of the pool's sells hold the same orders.
pub proof fn lemma_best_sells_same(v: Seq<ShardView>, r1: Seq<SpotOrder>, r2: Seq<SpotOrder>)
    requires
        best_sells_of(v, r1),
        best_sells_of(v, r2),
    ensures
        r1.to_multiset() == r2.to_multiset(),
{
    let l1 = choose|ls: Seq<Seq<SpotOrder>>| #[trigger] sell_listings(v, ls) && r1 == sort_by_price(ls.flatten(), false);
    let l2 = choose|ls: Seq<Seq<SpotOrder>>| #[trigger] sell_listings(v, ls) && r2 == sort_by_price(ls.flatten(), false);
    assert forall|i: int| 0 <= i < l1.len() implies #[trigger] l1[i].to_multiset() == l2[i].to_multiset() by {
        lemma_best_sells_listings_same(v[i].1, l1[i], l2[i]);
    }
    lemma_flatten_same(l1, l2);
    lemma_sort_by_price_perm(l1.flatten(), false);
    lemma_sort_by_price_perm(l2.flatten(), false);
}

/// The shards after the orders `os` are added, in order.
pub open spec fn pool_after_adds(v: Seq<ShardView>, rs: Seq<PriceTimeRange>, os: Seq<SpotOrder>) -> Seq<
    ShardView,
>
    decreases os.len(),
{
    if os.len() == 0 {
        v
    } else {
        pool_after_add(pool_after_adds(v, rs, os.drop_last()), rs, os.last())
    }
}

/// The orders of `s` that no matcher holds: those with no status or the status `New`.
pub open spec fn is_available(o: SpotOrder) -> bool {
    match o.status {
        None => true,
        Some(st) => st == OrderStatus::New,
    }
}

/// The first order of `sells` that a buy at `price` crosses.
pub open spec fn first_crossing(sells: Seq<SpotOrder>, price: u128) -> Option<SpotOrder>
    decreases sells.len(),
{
    if sells.len() == 0 {
        None
    } else if sells[0].price <= price {
        Some(sells[0])
    } else {
        first_crossing(sells.drop_first(), price)
    }
}

/// `acc` extended, buy after buy while it is shorter than `batch`, by each buy of `buys` that
/// crosses a sell of `sells` followed by the first such sell.
pub open spec fn pair_buys(buys: Seq<SpotOrder>, sells: Seq<SpotOrder>, acc: Seq<SpotOrder>, batch: int) -> Seq<
    SpotOrder,
>
    decreases buys.len(),
{
    if buys.len() == 0 || acc.len() >= batch {
        acc
    } else {
        let next = match first_crossing(sells, buys[0].price) {
            Some(s) => acc.push(buys[0]).push(s),
            None => acc,
        };
        pair_buys(buys.drop_first(), sells, next, batch)
    }
}

/// The orders that no matcher holds.
pub open spec fn available() -> spec_fn(SpotOrder) -> bool {
    |o: SpotOrder| is_available(o)
}

/// `price` falls in the price band of `r`.
pub open spec fn in_band(r: PriceTimeRange, price: u128) -> bool {
    r.min_price <= price <= r.max_price
}

/// The shards after order `id` leaves the level at `price` in every shard whose band holds
/// `price`.
pub open spec fn pool_after_band_remove(
    v: Seq<ShardView>,
    rs: Seq<PriceTimeRange>,
    id: Seq<char>,
    price: u128,
    t: OrderType,
) -> Seq<ShardView> {
    Seq::new(
        v.len(),
        |i: int|
            if in_band(rs[i], price) {
                with_side(v[i], t, side_after_remove(side_of(v[i], t), id, price))
            } else {
                v[i]
            },
    )
}

/// In every shard whose band holds `price`, taking order `id` out keeps its level.
pub open spec fn pool_band_removal_ok(
    v: Seq<ShardView>,
    rs: Seq<PriceTimeRange>,
    id: Seq<char>,
    price: u128,
    t: OrderType,
) -> bool {
    forall|i: int|
        0 <= i < v.len() && in_band(#[trigger] rs[i], price) ==> removal_keeps_level(
            side_of(v[i], t),
            id,
            price,
        )
}

/// `l` lists the orders of one side at `price` in a shard whose band holds `price`, and is
/// empty for any other shard.
pub open spec fn band_listing(v: ShardView, r: PriceTimeRange, price: u128, t: OrderType, l: Seq<SpotOrder>) -> bool {
    if in_band(r, price) {
        level_listing(level_at(side_of(v, t), price), l)
    } else {
        l.len() == 0
    }
}

/// `ls` holds, shard by shard, a listing of the orders of one side at `price`.
pub open spec fn band_listings(
    v: Seq<ShardView>,
    rs: Seq<PriceTimeRange>,
    price: u128,
    t: OrderType,
    ls: Seq<Seq<SpotOrder>>,
) -> bool {
    ls.len() == v.len() && forall|i: int| 0 <= i < v.len() ==> #[trigger] band_listing(v[i], rs[i], price, t, ls[i])
}

/// The orders picked from the listings `bl` of buys and `sl` of sells, shard after shard:
/// from each shard's available orders, while fewer than `batch` are picked.
pub open spec fn batch_over(bl: Seq<Seq<SpotOrder>>, sl: Seq<Seq<SpotOrder>>, batch: int) -> Seq<
    SpotOrder,
>
    decreases bl.len(),
{
    if bl.len() == 0 {
        Seq::empty()
    } else {
        let before = batch_over(bl.drop_last(), sl.drop_last(), batch);
        if before.len() >= batch {
            before
        } else {
            pair_buys(bl.last().filter(available()), sl.last().filter(available()), before, batch)
        }
    }
}

/// `bl` and `sl` list, for the first shards, each shard's buys and sells best first.
pub open spec fn listings_prefix(v: Seq<ShardView>, bl: Seq<Seq<SpotOrder>>, sl: Seq<Seq<SpotOrder>>) -> bool {
    &&& bl.len() == sl.len() <= v.len()
    &&& forall|i: int|
        0 <= i < bl.len() ==> best_buys_listing(v[i].0, #[trigger] bl[i]) && best_sells_listing(
            v[i].1,
            sl[i],
        )
}

fn available_orders(v: Vec<SpotOrder>) -> (r: Vec<SpotOrder>)
    ensures
        r@ == v@.filter(available()),
{
    let mut r: Vec<SpotOrder> = Vec::new();
    let n = v.len();
    let mut k: usize = 0;
    assert(v@.take(0) =~= Seq::<SpotOrder>::empty());
    while k < n
        invariant
            n == v@.len(),
            k <= n,
            r@ == v@.take(k as int).filter(available()),
        decreases n - k,
    {
        assert(v@.take(k + 1).drop_last() =~= v@.take(k as int));
        let o = &v[k];
        let free = match o.status {
            None => true,
            Some(st) => st == OrderStatus::New,
        };
        assert(v@.take(k + 1).last() == v@[k as int]);
        assert(available()(v@[k as int]) == free);
        if free {
            r.push(o.clone());
        }
        proof {
            reveal(Seq::filter);
        }
        k = k + 1;
    }
    assert(v@.take(n as int) =~= v@);
    r
}

fn first_crossing_index(sells: &Vec<SpotOrder>, price: u128) -> (r: Option<usize>)
    ensures
        match r {
            Some(j) => j < sells@.len() && first_crossing(sells@, price) == Some(sells@[j as int]),
            None => first_crossing(sells@, price) is None,
        },
{
    let n = sells.len();
    let mut j: usize = 0;
    assert(sells@.skip(0) =~= sells@);
    while j < n
        invariant
            n == sells@.len(),
            j <= n,
            first_crossing(sells@, price) == first_crossing(sells@.skip(j as int), price),
        decreases n - j,
    {
        if sells[j].price <= price {
            return Some(j);
        }
        assert(sells@.skip(j as int).drop_first() =~= sells@.skip(j + 1));
        j = j + 1;
    }
    None
}

fn pair_shard(buys: &Vec<SpotOrder>, sells: &Vec<SpotOrder>, selected: &mut Vec<SpotOrder>, batch_size: usize)
    ensures
        final(selected)@ == pair_buys(buys@, sells@, old(selected)@, batch_size as int),
{
    let ghost acc0 = selected@;
    let n = buys.len();
    let mut j: usize = 0;
    assert(buys@.skip(0) =~= buys@);
    while j < n
        invariant
            n == buys@.len(),
            j <= n,
            pair_buys(buys@, sells@, acc0, batch_size as int) == pair_buys(
                buys@.skip(j as int),
                sells@,
                selected@,
                batch_size as int,
            ),
        ensures
            selected@ == pair_buys(buys@, sells@, acc0, batch_size as int),
        decreases n - j,
    {
        if selected.len() >= batch_size {
            break;
        }
        assert(buys@.skip(j as int).drop_first() =~= buys@.skip(j + 1));
        match first_crossing_index(sells, buys[j].price) {
            Some(x) => {
                selected.push(buys[j].clone());
                selected.push(sells[x].clone());
            },
            None => {},
        }
        j = j + 1;
    }
}

/// An order added to a pool rests, under its id, at its price on its side of the shard
/// for its price and timestamp; every other shard is unchanged.
pub proof fn lemma_pool_add_places(v: Seq<ShardView>, rs: Seq<PriceTimeRange>, o: SpotOrder)
    requires
        v.len() == rs.len(),
        shard_for(rs, o.price, o.timestamp) is Some,
    ensures
        ({
            let i = shard_for(rs, o.price, o.timestamp)->0;
            let after = pool_after_add(v, rs, o);
            &&& level_at(side_of(after[i], o.order_type), o.price).contains_key(o.id@)
            &&& level_at(side_of(after[i], o.order_type), o.price)[o.id@] == o
            &&& forall|j: int| 0 <= j < v.len() && j != i ==> after[j] == v[j]
        }),
{
    let i = choose|i: int| first_match(rs, o.price, o.timestamp, i);
    assert(shard_for(rs, o.price, o.timestamp) == Some(i));
}

/// Taking an order out of a pool right after adding it, in the shard of its band and time
/// window, leaves no order of its id at its price there.
pub proof fn lemma_pool_remove_after_add(v: Seq<ShardView>, rs: Seq<PriceTimeRange>, o: SpotOrder)
    requires
        v.len() == rs.len(),
        shard_for(rs, o.price, o.timestamp) is Some,
    ensures
        ({
            let i = shard_for(rs, o.price, o.timestamp)->0;
            let after = pool_after_remove(
                pool_after_add(v, rs, o),
                rs,
                o.id@,
                o.price,
                o.timestamp,
                o.order_type,
            );
            !level_at(side_of(after[i], o.order_type), o.price).contains_key(o.id@)
        }),
{
    let i = choose|i: int| first_match(rs, o.price, o.timestamp, i);
    assert(shard_for(rs, o.price, o.timestamp) == Some(i));
}

/// A pool's best buys are sorted by price, highest first, and are exactly the orders of some
/// listing of the shards' buy levels.
pub proof fn lemma_best_buys_sorted(v: Seq<ShardView>, r: Seq<SpotOrder>)
    requires
        best_buys_of(v, r),
    ensures
        price_sorted(r, true),
        exists|ls: Seq<Seq<SpotOrder>>| #[trigger] buy_listings(v, ls) && r.to_multiset() == ls.flatten().to_multiset(),
{
    let ls = choose|ls: Seq<Seq<SpotOrder>>| #[trigger] buy_listings(v, ls) && r == sort_by_price(ls.flatten(), true);
    lemma_sort_by_price_sorted(ls.flatten(), true);
    lemma_sort_by_price_perm(ls.flatten(), true);
}

/// A pool's best sells are sorted by price, lowest first, and are exactly the orders of some
/// listing of the shards' sell levels.
pub proof fn lemma_best_sells_sorted(v: Seq<ShardView>, r: Seq<SpotOrder>)
    requires
        best_sells_of(v, r),
    ensures
        price_sorted(r, false),
        exists|ls: Seq<Seq<SpotOrder>>| #[trigger] sell_listings(v, ls) && r.to_multiset() == ls.flatten().to_multiset(),
{
    let ls = choose|ls: Seq<Seq<SpotOrder>>| #[trigger] sell_listings(v, ls) && r == sort_by_price(ls.flatten(), false);
    lemma_sort_by_price_sorted(ls.flatten(), false);
    lemma_sort_by_price_perm(ls.flatten(), false);
}

/// The shards without the orders whose ids are in `ids`; levels left without orders go.
pub open spec fn pool_without_ids(v: Seq<ShardView>, ids: Set<Seq<char>>) -> Seq<ShardView> {
    v.map_values(|sv: ShardView| (side_without_ids(sv.0, ids), side_without_ids(sv.1, ids)))
}

/// The shards, by price band and time window.
pub struct ShardedOrderPool {
    price_time_ranges: Vec<PriceTimeRange>,
    shards: Vec<OrderShard>,
}

impl ShardedOrderPool {
    /// The ranges, one per shard.
    pub closed spec fn ranges(&self) -> Seq<PriceTimeRange> {
        self.price_time_ranges@
    }

    /// What each shard holds.
    pub closed spec fn shard_views(&self) -> Seq<ShardView> {
        self.shards@.map_values(|s: OrderShard| (s.buys(), s.sells()))
    }

    /// One shard per range, each well formed.
    pub closed spec fn wf(&self) -> bool {
        &&& self.shards@.len() == self.price_time_ranges@.len()
        &&& forall|i: int| 0 <= i < self.shards@.len() ==> (#[trigger] self.shards@[i]).wf()
    }

    /// A pool of empty shards, one per range.
    pub fn new(price_time_ranges: Vec<PriceTimeRange>) -> (r: Self)
        ensures
            r.wf(),
            r.ranges() == price_time_ranges@,
            r.shard_views() == empty_shards(price_time_ranges@.len()),
    {
        let num_shards = price_time_ranges.len();
        let mut shards: Vec<OrderShard> = Vec::new();
        let mut k: usize = 0;
        while k < num_shards
            invariant
                k <= num_shards,
                shards@.len() == k,
                forall|i: int|
                    0 <= i < k ==> (#[trigger] shards@[i]).wf() && shards@[i].buys() == Map::<
                        u128,
                        LevelMap,
                    >::empty() && shards@[i].sells() == Map::<u128, LevelMap>::empty(),
            decreases num_shards - k,
        {
            shards.push(OrderShard::new());
            k = k + 1;
        }
        let r = Self { price_time_ranges, shards };
        assert(r.shard_views() =~= empty_shards(r.price_time_ranges@.len()));
        r
    }

    fn shard_index(&self, price: u128, time: u64) -> (r: Option<usize>)
        ensures
            match r {
                Some(i) => shard_for(self.ranges(), price, time) == Some(i as int),
                None => shard_for(self.ranges(), price, time) is None,
            },
    {
        let n = self.price_time_ranges.len();
        let mut index: usize = 0;
        while index < n
            invariant
                n == self.price_time_ranges@.len(),
                index <= n,
                forall|j: int| 0 <= j < index ==> !in_range(#[trigger] self.price_time_ranges@[j], price, time),
            decreases n - index,
        {
            let range = &self.price_time_ranges[index];
            if price >= range.min_price && price <= range.max_price && time >= range.min_time
                && time <= range.max_time {
                proof {
                    let rs = self.ranges();
                    assert(first_match(rs, price, time, index as int));
                    let c = choose|i: int| first_match(rs, price, time, i);
                    lemma_first_match_unique(rs, price, time, c, index as int);
                }
                return Some(index);
            }
            index = index + 1;
        }
        proof {
            let rs = self.ranges();
            assert forall|i: int| !first_match(rs, price, time, i) by {
                if 0 <= i < rs.len() {
                    assert(!in_range(rs[i], price, time));
                }
            }
        }
        None
    }

    /// The shard that `price` and `time` go to: that of the first range holding them.
    pub fn get_shard_by_price_and_time(&self, price: u128, time: u64) -> (r: Option<&OrderShard>)
        requires
            self.wf(),
        ensures
            match shard_for(self.ranges(), price, time) {
                Some(i) => r matches Some(s) && s.wf() && (s.buys(), s.sells())
                    == self.shard_views()[i],
                None => r is None,
            },
    {
        match self.shard_index(price, time) {
            Some(i) => Some(&self.shards[i]),
            None => None,
        }
    }

    /// Rests `order` in the shard for its price and timestamp; with no such shard, nothing
    /// changes.
    pub fn add_order(&mut self, order: SpotOrder)
        requires
            old(self).wf(),
        ensures
            final(self).wf(),
            final(self).ranges() == old(self).ranges(),
            final(self).shard_views() == pool_after_add(
                old(self).shard_views(),
                old(self).ranges(),
                order,
            ),
    {
        let ghost v0 = self.shard_views();
        let ghost o = order;
        match self.shard_index(order.price, order.timestamp) {
            Some(i) => {
                self.shards[i].add_order(order);
                proof {
                    assert(self.shard_views() =~= pool_after_add(v0, self.ranges(), o));
                }
            },
            None => {},
        }
    }

    /// Takes order `order_id` out of the shard for `price` and `time`. The order's level
    /// must keep another order.
    pub fn remove_order(&mut self, order_id: &str, price: u128, time: u64, order_type: OrderType)
        requires
            old(self).wf(),
            pool_removal_ok(old(self).shard_views(), old(self).ranges(), order_id@, price, time, order_type),
        ensures
            final(self).wf(),
            final(self).ranges() == old(self).ranges(),
            final(self).shard_views() == pool_after_remove(
                old(self).shard_views(),
                old(self).ranges(),
                order_id@,
                price,
                time,
                order_type,
            ),
    {
        let ghost v0 = self.shard_views();
        match self.shard_index(price, time) {
            Some(i) => {
                self.shards[i].remove_order(order_id, price, order_type);
                proof {
                    assert(self.shard_views() =~= pool_after_remove(
                        v0,
                        self.ranges(),
                        order_id@,
                        price,
                        time,
                        order_type,
                    ));
                }
            },
            None => {},
        }
    }

    /// Updates order `order_id` in the shard for `price` and `timestamp`. The update must not
    /// zero an order that is there.
    pub fn update_order_in_shard(
        &mut self,
        order_id: &str,
        price: u128,
        timestamp: u64,
        new_amount: u128,
        status: Option<OrderStatus>,
        order_type: OrderType,
    )
        requires
            old(self).wf(),
            pool_update_ok(
                old(self).shard_views(),
                old(self).ranges(),
                order_id@,
                price,
                timestamp,
                new_amount,
                order_type,
            ),
        ensures
            final(self).wf(),
            final(self).ranges() == old(self).ranges(),
            final(self).shard_views() == pool_after_update(
                old(self).shard_views(),
                old(self).ranges(),
                order_id@,
                price,
                timestamp,
                new_amount,
                status,
                order_type,
            ),
    {
        let ghost v0 = self.shard_views();
        match self.shard_index(price, timestamp) {
            Some(i) => {
                self.shards[i].update_order(order_id, price, new_amount, status, order_type);
                proof {
                    assert(self.shard_views() =~= pool_after_update(
                        v0,
                        self.ranges(),
                        order_id@,
                        price,
                        timestamp,
                        new_amount,
                        status,
                        order_type,
                    ));
                }
            },
            None => {},
        }
    }

    /// Applies a matcher's reports, in order.
    pub fn update_order_status(&mut self, orders: Vec<MatcherOrderUpdate>)
        requires
            old(self).wf(),
            pool_reports_ok(old(self).shard_views(), old(self).ranges(), orders@),
        ensures
            final(self).wf(),
            final(self).ranges() == old(self).ranges(),
            final(self).shard_views() == pool_after_reports(
                old(self).shard_views(),
                old(self).ranges(),
                orders@,
            ),
    {
        let ghost v0 = self.shard_views();
        let ghost rs = self.ranges();
        let n = orders.len();
        let mut k: usize = 0;
        assert(orders@.take(0) =~= Seq::<MatcherOrderUpdate>::empty());
        while k < n
            invariant
                n == orders@.len(),
                k <= n,
                self.wf(),
                self.ranges() == rs,
                pool_reports_ok(v0, rs, orders@),
                self.shard_views() == pool_after_reports(v0, rs, orders@.take(k as int)),
            decreases n - k,
        {
            let u = &orders[k];
            assert(orders@.take(k + 1).drop_last() =~= orders@.take(k as int));
            self.update_order_in_shard(
                &u.order_id,
                u.price,
                u.timestamp,
                u.new_amount,
                u.status,
                u.order_type,
            );
            k = k + 1;
        }
        assert(orders@.take(n as int) =~= orders@);
    }

    /// Every shard's buy orders, highest price first, stably: within a price, shard after
    /// shard, each shard's own order.
    pub fn get_best_buy_orders(&self) -> (r: Vec<SpotOrder>)
        requires
            self.wf(),
        ensures
            best_buys_of(self.shard_views(), r@),
    {
        let ghost v = self.shard_views();
        let mut all_orders: Vec<SpotOrder> = Vec::new();
        let ghost mut ls: Seq<Seq<SpotOrder>> = Seq::empty();
        let n = self.shards.len();
        let mut k: usize = 0;
        while k < n
            invariant
                n == self.shards@.len(),
                k <= n,
                self.wf(),
                v == self.shard_views(),
                ls.len() == k,
                forall|i: int| 0 <= i < k ==> best_buys_listing(v[i].0, #[trigger] ls[i]),
                all_orders@ == ls.flatten_alt(),
            decreases n - k,
        {
            let mut chunk = self.shards[k].get_best_buy_orders();
            let ghost prev = ls;
            proof {
                ls = ls.push(chunk@);
                assert(ls.drop_last() =~= prev);
            }
            all_orders.append(&mut chunk);
            k = k + 1;
        }
        proof {
            ls.lemma_flatten_and_flatten_alt_are_equivalent();
            assert(buy_listings(v, ls));
        }
        sort_orders_by_price(all_orders, true)
    }

    /// Every shard's sell orders, lowest price first, stably: within a price, shard after
    /// shard, each shard's own order.
    pub fn get_best_sell_orders(&self) -> (r: Vec<SpotOrder>)
        requires
            self.wf(),
        ensures
            best_sells_of(self.shard_views(), r@),
    {
        let ghost v = self.shard_views();
        let mut all_orders: Vec<SpotOrder> = Vec::new();
        let ghost mut ls: Seq<Seq<SpotOrder>> = Seq::empty();
        let n = self.shards.len();
        let mut k: usize = 0;
        while k < n
            invariant
                n == self.shards@.len(),
                k <= n,
                self.wf(),
                v == self.shard_views(),
                ls.len() == k,
                forall|i: int| 0 <= i < k ==> best_sells_listing(v[i].1, #[trigger] ls[i]),
                all_orders@ == ls.flatten_alt(),
            decreases n - k,
        {
            let mut chunk = self.shards[k].get_best_sell_orders();
            let ghost prev = ls;
            proof {
                ls = ls.push(chunk@);
                assert(ls.drop_last() =~= prev);
            }
            all_orders.append(&mut chunk);
            k = k + 1;
        }
        proof {
            ls.lemma_flatten_and_flatten_alt_are_equivalent();
            assert(sell_listings(v, ls));
        }
        sort_orders_by_price(all_orders, false)
    }

    /// Empties every shard.
    pub fn clear_orders(&mut self)
        requires
            old(self).wf(),
        ensures
            final(self).wf(),
            final(self).ranges() == old(self).ranges(),
            final(self).shard_views() == empty_shards(old(self).shard_views().len()),
    {
        let ghost rs = self.ranges();
        let n = self.shards.len();
        let mut k: usize = 0;
        while k < n
            invariant
                n == self.shards@.len(),
                k <= n,
                self.wf(),
                self.ranges() == rs,
                forall|i: int|
                    0 <= i < k ==> (#[trigger] self.shards@[i]).buys() == Map::<u128, LevelMap>::empty()
                        && self.shards@[i].sells() == Map::<u128, LevelMap>::empty(),
            decreases n - k,
        {
            self.shards[k].clear_orders();
            k = k + 1;
        }
        assert(self.shard_views() =~= empty_shards(n as nat));
    }

    /// For each shard, in order: its index, its order counts, its price ranges and its time
    /// range.
    pub fn get_detailed_order_info_per_shard(&self) -> (r: Vec<ShardDetails>)
        requires
            self.wf(),
            forall|i: int|
                0 <= i < self.shard_views().len() ==> count_fits((#[trigger] self.shard_views()[i]).0)
                    && count_fits(self.shard_views()[i].1),
        ensures
            r@.len() == self.shard_views().len(),
            forall|i: int|
                0 <= i < r@.len() ==> {
                    let d = #[trigger] r@[i];
                    let v = self.shard_views()[i];
                    &&& d.shard_index == i
                    &&& order_count(v.0, d.buy_orders_count as int)
                    &&& order_count(v.1, d.sell_orders_count as int)
                    &&& price_range_of(v.0, d.buy_price_range)
                    &&& price_range_of(v.1, d.sell_price_range)
                    &&& d.time_range is None
                },
    {
        let ghost v = self.shard_views();
        let n = self.shards.len();
        let mut r: Vec<ShardDetails> = Vec::new();
        let mut index: usize = 0;
        while index < n
            invariant
                n == self.shards@.len(),
                index <= n,
                self.wf(),
                v == self.shard_views(),
                forall|i: int| 0 <= i < n ==> count_fits((#[trigger] v[i]).0) && count_fits(v[i].1),
                r@.len() == index,
                forall|i: int|
                    0 <= i < index ==> {
                        let d = #[trigger] r@[i];
                        &&& d.shard_index == i
                        &&& order_count(v[i].0, d.buy_orders_count as int)
                        &&& order_count(v[i].1, d.sell_orders_count as int)
                        &&& price_range_of(v[i].0, d.buy_price_range)
                        &&& price_range_of(v[i].1, d.sell_price_range)
                        &&& d.time_range is None
                    },
            decreases n - index,
        {
            let shard = &self.shards[index];
            assert(v[index as int] == (shard.buys(), shard.sells()));
            let details = ShardDetails {
                shard_index: index,
                buy_orders_count: shard.get_buy_order_count(),
                sell_orders_count: shard.get_sell_order_count(),
                buy_price_range: shard.get_buy_price_range(),
                sell_price_range: shard.get_sell_price_range(),
                time_range: shard.get_time_range(),
            };
            r.push(details);
            index = index + 1;
        }
        r
    }

    /// The orders of one side at `price` in the shard for `price` and `timestamp`; none
    /// without such a shard.
    pub fn get_orders_by_price_and_time(&self, price: u128, timestamp: u64, order_type: OrderType) -> (r:
        Vec<SpotOrder>)
        requires
            self.wf(),
        ensures
            match shard_for(self.ranges(), price, timestamp) {
                Some(i) => level_listing(level_at(side_of(self.shard_views()[i], order_type), price), r@),
                None => r@.len() == 0,
            },
    {
        match self.shard_index(price, timestamp) {
            Some(i) => {
                let shard = &self.shards[i];
                assert(self.shard_views()[i as int] == (shard.buys(), shard.sells()));
                shard.get_orders_by_price_and_time(price, timestamp, order_type)
            },
            None => Vec::new(),
        }
    }

    /// Gives order `order_id` at `price` the status `new_status` in the shard for `price` and
    /// `timestamp`.
    #[allow(dead_code)]
    fn update_order_status_internal(
        &mut self,
        order_id: &str,
        price: u128,
        timestamp: u64,
        new_status: OrderStatus,
    )
        requires
            old(self).wf(),
        ensures
            final(self).wf(),
            final(self).ranges() == old(self).ranges(),
            final(self).shard_views() == match shard_for(old(self).ranges(), price, timestamp) {
                Some(i) => old(self).shard_views().update(
                    i,
                    (
                        side_after_status(old(self).shard_views()[i].0, order_id@, price, new_status),
                        side_after_status(old(self).shard_views()[i].1, order_id@, price, new_status),
                    ),
                ),
                None => old(self).shard_views(),
            },
    {
        let ghost v0 = self.shard_views();
        match self.shard_index(price, timestamp) {
            Some(i) => {
                self.shards[i].update_order_status(order_id, price, new_status);
                proof {
                    assert(self.shard_views() =~= v0.update(
                        i as int,
                        (
                            side_after_status(v0[i as int].0, order_id@, price, new_status),
                            side_after_status(v0[i as int].1, order_id@, price, new_status),
                        ),
                    ));
                }
            },
            None => {},
        }
    }

    /// Crossing orders for a matcher, shard after shard: each available buy of a shard, best
    /// first, that crosses an available sell of that shard, followed by the first such sell,
    /// until at least `batch_size` orders are picked.
    pub fn select_batch(&self, batch_size: usize) -> (r: Vec<SpotOrder>)
        requires
            self.wf(),
        ensures
            exists|bl: Seq<Seq<SpotOrder>>, sl: Seq<Seq<SpotOrder>>|
                #[trigger] listings_prefix(self.shard_views(), bl, sl) && r@ == batch_over(
                    bl,
                    sl,
                    batch_size as int,
                ) && (bl.len() < self.shard_views().len() ==> r@.len() >= batch_size),
    {
        let ghost v = self.shard_views();
        let mut selected: Vec<SpotOrder> = Vec::new();
        let ghost mut bl: Seq<Seq<SpotOrder>> = Seq::empty();
        let ghost mut sl: Seq<Seq<SpotOrder>> = Seq::empty();
        let n = self.shards.len();
        let mut k: usize = 0;
        while k < n
            invariant_except_break
                selected@.len() < batch_size || k == 0,
            invariant
                n == self.shards@.len(),
                k <= n,
                self.wf(),
                v == self.shard_views(),
                bl.len() == k,
                listings_prefix(v, bl, sl),
                selected@ == batch_over(bl, sl, batch_size as int),
            ensures
                listings_prefix(v, bl, sl),
                selected@ == batch_over(bl, sl, batch_size as int),
                bl.len() < n ==> selected@.len() >= batch_size,
            decreases n - k,
        {
            let shard = &self.shards[k];
            let buy_orders = shard.get_best_buy_orders();
            let sell_orders = shard.get_best_sell_orders();
            let ghost before = selected@;
            let ghost prev_bl = bl;
            let ghost prev_sl = sl;
            proof {
                bl = bl.push(buy_orders@);
                sl = sl.push(sell_orders@);
            }
            let available_buy_orders = available_orders(buy_orders);
            let available_sell_orders = available_orders(sell_orders);
            pair_shard(&available_buy_orders, &available_sell_orders, &mut selected, batch_size);
            proof {
                assert(bl.drop_last() =~= prev_bl);
                assert(sl.drop_last() =~= prev_sl);
                assert(v[k as int] == (shard.buys(), shard.sells()));
                assert forall|i: int| 0 <= i < bl.len() implies best_buys_listing(v[i].0, #[trigger] bl[i])
                    && best_sells_listing(v[i].1, sl[i]) by {
                    if i < k {
                        assert(bl[i] == prev_bl[i]);
                        assert(sl[i] == prev_sl[i]);
                    }
                }
                assert(listings_prefix(v, bl, sl));
            }
            k = k + 1;
            if selected.len() >= batch_size {
                break;
            }
        }
        selected
    }

    /// Takes order `order_id` out of the level at `price` in every shard whose price band
    /// holds `price`, whatever its time window. Each such level must keep another order.
    pub fn remove_order_by_price(&mut self, order_id: &str, price: u128, order_type: OrderType)
        requires
            old(self).wf(),
            pool_band_removal_ok(old(self).shard_views(), old(self).ranges(), order_id@, price, order_type),
        ensures
            final(self).wf(),
            final(self).ranges() == old(self).ranges(),
            final(self).shard_views() == pool_after_band_remove(
                old(self).shard_views(),
                old(self).ranges(),
                order_id@,
                price,
                order_type,
            ),
    {
        let ghost v0 = self.shard_views();
        let ghost rs = self.ranges();
        let n = self.shards.len();
        let mut k: usize = 0;
        while k < n
            invariant
                n == self.shards@.len(),
                n == rs.len(),
                k <= n,
                self.wf(),
                self.ranges() == rs,
                v0.len() == n,
                pool_band_removal_ok(v0, rs, order_id@, price, order_type),
                forall|i: int|
                    0 <= i < n ==> #[trigger] self.shard_views()[i] == if i < k {
                        pool_after_band_remove(v0, rs, order_id@, price, order_type)[i]
                    } else {
                        v0[i]
                    },
            decreases n - k,
        {
            let range = &self.price_time_ranges[k];
            let ghost before = self.shard_views();
            let ghost goal = pool_after_band_remove(v0, rs, order_id@, price, order_type);
            assert(before[k as int] == v0[k as int]);
            if price >= range.min_price && price <= range.max_price {
                assert(in_band(rs[k as int], price));
                self.shards[k].remove_order(order_id, price, order_type);
            }
            assert forall|i: int| 0 <= i < n implies #[trigger] self.shard_views()[i] == if i < k + 1 {
                goal[i]
            } else {
                v0[i]
            } by {
                if i != k {
                    assert(self.shard_views()[i] == before[i]);
                }
            }
            k = k + 1;
        }
        assert(self.shard_views() =~= pool_after_band_remove(v0, rs, order_id@, price, order_type));
    }

    /// The orders of one side at `price`, shard after shard over the shards whose price band
    /// holds `price`; each level's orders in the shard's own order.
    pub fn get_orders_by_price(&self, price: u128, order_type: OrderType) -> (r: Vec<SpotOrder>)
        requires
            self.wf(),
        ensures
            exists|ls: Seq<Seq<SpotOrder>>|
                #[trigger] band_listings(self.shard_views(), self.ranges(), price, order_type, ls)
                    && r@ == ls.flatten(),
    {
        let ghost v = self.shard_views();
        let ghost rs = self.ranges();
        let mut all_orders: Vec<SpotOrder> = Vec::new();
        let ghost mut ls: Seq<Seq<SpotOrder>> = Seq::empty();
        let n = self.shards.len();
        let mut k: usize = 0;
        while k < n
            invariant
                n == self.shards@.len(),
                n == rs.len(),
                k <= n,
                self.wf(),
                v == self.shard_views(),
                rs == self.ranges(),
                ls.len() == k,
                forall|i: int|
                    0 <= i < k ==> #[trigger] band_listing(v[i], rs[i], price, order_type, ls[i]),
                all_orders@ == ls.flatten_alt(),
            decreases n - k,
        {
            let range = &self.price_time_ranges[k];
            let ghost prev = ls;
            if price >= range.min_price && price <= range.max_price {
                let mut chunk = self.shards[k].get_orders_by_price_and_time(price, 0, order_type);
                proof {
                    ls = ls.push(chunk@);
                    assert(ls.drop_last() =~= prev);
                    assert(v[k as int] == (self.shards@[k as int].buys(), self.shards@[k as int].sells()));
                }
                all_orders.append(&mut chunk);
            } else {
                proof {
                    ls = ls.push(Seq::empty());
                    assert(ls.drop_last() =~= prev);
                    assert(all_orders@ =~= ls.flatten_alt());
                }
            }
            k = k + 1;
        }
        proof {
            ls.lemma_flatten_and_flatten_alt_are_equivalent();
            assert(band_listings(v, rs, price, order_type, ls));
        }
        all_orders
    }

    /// Takes out of every shard the orders whose ids are in `ids`.
    pub fn remove_matched_orders(&mut self, ids: &Vec<String>)
        requires
            old(self).wf(),
        ensures
            final(self).wf(),
            final(self).ranges() == old(self).ranges(),
            final(self).shard_views() == pool_without_ids(old(self).shard_views(), id_views(ids@).to_set()),
    {
        let ghost v0 = self.shard_views();
        let ghost rs = self.ranges();
        let ghost goal = pool_without_ids(v0, id_views(ids@).to_set());
        let n = self.shards.len();
        let mut k: usize = 0;
        while k < n
            invariant
                n == self.shards@.len(),
                k <= n,
                self.wf(),
                self.ranges() == rs,
                v0.len() == n,
                goal == pool_without_ids(v0, id_views(ids@).to_set()),
                forall|i: int|
                    0 <= i < n ==> #[trigger] self.shard_views()[i] == if i < k {
                        goal[i]
                    } else {
                        v0[i]
                    },
            decreases n - k,
        {
            let ghost before = self.shard_views();
            assert(before[k as int] == v0[k as int]);
            self.shards[k].remove_matched_orders(ids);
            assert forall|i: int| 0 <= i < n implies #[trigger] self.shard_views()[i] == if i < k + 1 {
                goal[i]
            } else {
                v0[i]
            } by {
                if i != k {
                    assert(self.shard_views()[i] == before[i]);
                }
            }
            k = k + 1;
        }
        assert(self.shard_views() =~= goal);
    }
}

} // verus!
