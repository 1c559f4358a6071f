//! One shard of the sharded order pool: orders kept per side in concurrent maps from price
//! to the orders at that price by id, with the set of occupied prices beside them.
use crate::indexer::spot_order::{OrderStatus, OrderType, SpotOrder};
use crate::prices::{
    ascending, lemma_ascending_empty, lemma_ascending_min_max, lemma_ascending_unique,
    lemma_increasing, lemma_remove_no_dup,
};
use dashmap::DashMap;
use std::collections::BTreeSet;
use vstd::prelude::*;
use vstd::std_specs::btree::{axiom_spec_btree_keys_iter, spec_btree_keys_iter};
use vstd::std_specs::iter::IteratorSpec;

verus! {

broadcast use vstd::std_specs::btree::group_btree_axioms;

#[verifier::external_type_specification]
#[verifier::external_body]
#[verifier::reject_recursive_types(K)]
#[verifier::reject_recursive_types(V)]
#[verifier::reject_recursive_types(S)]
pub struct ExDashMap<K, V, S>(DashMap<K, V, S>);

/// The orders at one price, by id.
pub type LevelMap = Map<Seq<char>, SpotOrder>;

/// Levels by price.
pub type PriceMap = Map<u128, LevelMap>;

/// What a price-keyed map of order levels holds: for each price present, the orders of that
/// level by id.
pub uninterp spec fn level_contents(m: DashMap<u128, DashMap<String, SpotOrder>>) -> Map<
    u128,
    Map<Seq<char>, SpotOrder>,
>;

/// The level at a price, empty when absent.
pub open spec fn level_at(c: PriceMap, p: u128) -> LevelMap {
    if c.contains_key(p) {
        c[p]
    } else {
        Map::empty()
    }
}

/// `s` lists the orders of level `l`, each once, in some order.
pub open spec fn level_listing(l: LevelMap, s: Seq<SpotOrder>) -> bool {
    exists|ks: Seq<Seq<char>>|
        #![trigger ks.to_set()]
        ks.len() == s.len() && ks.no_duplicates() && ks.to_set() == l.dom() && forall|i: int|
            0 <= i < s.len() ==> s[i] == l[#[trigger] ks[i]]
}

/// `r` lists, level after level for the prices `ps` in that order, the orders of each level.
pub open spec fn listed_by_price(c: PriceMap, ps: Seq<u128>, r: Seq<SpotOrder>) -> bool
    decreases ps.len(),
{
    if ps.len() == 0 {
        r.len() == 0
    } else {
        exists|k: int|
            0 <= k <= r.len() && listed_by_price(c, ps.drop_last(), #[trigger] r.take(k))
                && level_listing(level_at(c, ps.last()), r.skip(k))
    }
}

/// `r` lists the buy levels of `c`, highest price first, each level's orders in some order.
pub open spec fn best_buys_listing(c: PriceMap, r: Seq<SpotOrder>) -> bool {
    exists|ps: Seq<u128>| ascending(ps, c.dom()) && listed_by_price(c, ps.reverse(), r)
}

/// `r` lists the sell levels of `c`, lowest price first, each level's orders in some order.
pub open spec fn best_sells_listing(c: PriceMap, r: Seq<SpotOrder>) -> bool {
    exists|ps: Seq<u128>| ascending(ps, c.dom()) && listed_by_price(c, ps, r)
}

/// `n` is the number of orders in the levels of `c`.
pub open spec fn order_count(c: PriceMap, n: int) -> bool {
    exists|ps: Seq<u128>| ascending(ps, c.dom()) && n == orders_in(c, ps)
}

/// `r` is the lowest and the highest occupied price of `c`, or `None` when no price is.
pub open spec fn price_range_of(c: PriceMap, r: Option<(u128, u128)>) -> bool {
    &&& (r is None <==> c.dom() =~= Set::<u128>::empty())
    &&& (r matches Some((lo, hi)) ==> c.contains_key(lo) && c.contains_key(hi) && forall|x: u128|
        c.contains_key(x) ==> lo <= x <= hi)
}

/// The number of orders in the levels at prices `ps`.
pub open spec fn orders_in(c: PriceMap, ps: Seq<u128>) -> int
    decreases ps.len(),
{
    if ps.len() == 0 {
        0
    } else {
        orders_in(c, ps.drop_last()) + level_at(c, ps.last()).dom().len()
    }
}

/// `DashMap::new`: an empty map.
#[verifier::external_body]
fn levels_new() -> (r: DashMap<u128, DashMap<String, SpotOrder>>)
    ensures
        level_contents(r) =~= Map::empty(),
{
    DashMap::new()
}

/// `entry(price).or_insert_with(DashMap::new)` then `insert(id, order)` on that level: the level
/// at `price`, created empty when absent, maps `id` to `order`.
#[verifier::external_body]
fn levels_insert(
    m: &mut DashMap<u128, DashMap<String, SpotOrder>>,
    price: u128,
    id: String,
    order: SpotOrder,
)
    ensures
        level_contents(*final(m)) == level_contents(*old(m)).insert(
            price,
            level_at(level_contents(*old(m)), price).insert(id@, order),
        ),
{
    m.entry(price).or_insert_with(DashMap::new).insert(id, order);
}

/// `get_mut(&price)` then `remove(id)` on the level found: the level at `price`, when present,
/// no longer maps `id`; the level stays, even empty.
#[verifier::external_body]
fn levels_remove_in_level(m: &mut DashMap<u128, DashMap<String, SpotOrder>>, price: u128, id: &str)
    ensures
        level_contents(*final(m)) == (if level_contents(*old(m)).contains_key(price) {
            level_contents(*old(m)).insert(price, level_contents(*old(m))[price].remove(id@))
        } else {
            level_contents(*old(m))
        }),
{
    if let Some(level) = m.get_mut(&price) {
        level.remove(id);
    }
}

/// `remove(&price)`: the level at `price` is dropped.
#[verifier::external_body]
fn levels_remove_level(m: &mut DashMap<u128, DashMap<String, SpotOrder>>, price: u128)
    ensures
        level_contents(*final(m)) == level_contents(*old(m)).remove(price),
{
    m.remove(&price);
}

/// `get(&price)` then `get(id)` on the level found: the order stored under `id` at `price`.
#[verifier::external_body]
fn levels_get_order(m: &DashMap<u128, DashMap<String, SpotOrder>>, price: u128, id: &str) -> (r:
    Option<SpotOrder>)
    ensures
        r == (if level_at(level_contents(*m), price).contains_key(id@) {
            Some(level_at(level_contents(*m), price)[id@])
        } else {
            None
        }),
{
    m.get(&price).and_then(|level| level.get(id).map(|entry| entry.value().clone()))
}

/// `get_mut(&price)` then `get_mut(id)` on the level found, storing `order` there: an order
/// stored under `id` at `price` is replaced; nothing else changes.
#[verifier::external_body]
fn levels_replace_order(
    m: &mut DashMap<u128, DashMap<String, SpotOrder>>,
    price: u128,
    id: &str,
    order: SpotOrder,
)
    ensures
        level_contents(*final(m)) == (if level_at(level_contents(*old(m)), price).contains_key(
            id@,
        ) {
            level_contents(*old(m)).insert(price, level_contents(*old(m))[price].insert(id@, order))
        } else {
            level_contents(*old(m))
        }),
{
    if let Some(level) = m.get_mut(&price) {
        if let Some(mut entry) = level.get_mut(id) {
            *entry = order;
        }
    }
}

/// `get(&price)` then the level's entries, each order cloned: the orders at `price`, each once,
/// in the map's own order.
#[verifier::external_body]
fn levels_orders_at(m: &DashMap<u128, DashMap<String, SpotOrder>>, price: u128) -> (r: Vec<
    SpotOrder,
>)
    ensures
        level_listing(level_at(level_contents(*m), price), r@),
{
    match m.get(&price) {
        Some(level) => level.iter().map(|entry| entry.value().clone()).collect(),
        None => Vec::new(),
    }
}

/// `get(&price)` then `len()` on the level found: the number of orders at `price`.
#[verifier::external_body]
fn levels_level_len(m: &DashMap<u128, DashMap<String, SpotOrder>>, price: u128) -> (r: usize)
    ensures
        r == level_at(level_contents(*m), price).dom().len(),
{
    match m.get(&price) {
        Some(level) => level.len(),
        None => 0,
    }
}

/// `clear()`: no level is left.
#[verifier::external_body]
fn levels_clear(m: &mut DashMap<u128, DashMap<String, SpotOrder>>)
    ensures
        level_contents(*final(m)) =~= Map::empty(),
{
    m.clear();
}

/// The prices of a set, ascending.
fn ascending_prices(s: &BTreeSet<u128>) -> (r: Vec<u128>)
    ensures
        ascending(r@, s@),
{
    let mut r: Vec<u128> = Vec::new();
    proof {
        axiom_spec_btree_keys_iter(s);
    }
    let ghost keys = spec_btree_keys_iter(s).remaining().unref();
    for x in it: s.iter()
        invariant
            keys == it.seq().unref(),
            r@ == it.seq().unref().take(it.index()),
    {
        r.push(*x);
    }
    assert(r@ =~= keys);
    proof {
        lemma_increasing(spec_btree_keys_iter(s).remaining());
    }
    r
}

/// Well-formed levels of one side: the occupied prices are exactly the levels present, each
/// level is finite, and each order sits at its price, under its id, on this side.
pub open spec fn wf_levels(c: PriceMap, prices: Set<u128>, side: OrderType) -> bool {
    &&& prices == c.dom()
    &&& c.dom().finite()
    &&& forall|p: u128| #[trigger] c.contains_key(p) ==> c[p].dom().finite()
    &&& forall|p: u128, k: Seq<char>|
        #![trigger c[p][k]]
        c.contains_key(p) && c[p].contains_key(k) ==> c[p][k].price == p && c[p][k].order_type
            == side && c[p][k].id@ == k
}

/// One shard: per side, the orders by price then id, and the occupied prices.
pub struct OrderShard {
    buy_orders_by_price: DashMap<u128, DashMap<String, SpotOrder>>,
    sell_orders_by_price: DashMap<u128, DashMap<String, SpotOrder>>,
    buy_price_levels: BTreeSet<u128>,
    sell_price_levels: BTreeSet<u128>,
}

impl OrderShard {
    /// The buy levels.
    pub closed spec fn buys(&self) -> PriceMap {
        level_contents(self.buy_orders_by_price)
    }

    /// The sell levels.
    pub closed spec fn sells(&self) -> PriceMap {
        level_contents(self.sell_orders_by_price)
    }

    /// The levels of one side.
    pub open spec fn side(&self, t: OrderType) -> PriceMap {
        match t {
            OrderType::Buy => self.buys(),
            OrderType::Sell => self.sells(),
        }
    }

    /// Both sides well formed.
    pub closed spec fn wf(&self) -> bool {
        &&& wf_levels(self.buys(), self.buy_price_levels@, OrderType::Buy)
        &&& wf_levels(self.sells(), self.sell_price_levels@, OrderType::Sell)
    }

    /// An empty shard.
    pub fn new() -> (r: Self)
        ensures
            r.wf(),
            r.buys() == Map::<u128, LevelMap>::empty(),
            r.sells() == Map::<u128, LevelMap>::empty(),
    {
        let r = Self {
            buy_orders_by_price: levels_new(),
            sell_orders_by_price: levels_new(),
            buy_price_levels: BTreeSet::new(),
            sell_price_levels: BTreeSet::new(),
        };
        proof {
            assert(r.buy_price_levels@ =~= level_contents(r.buy_orders_by_price).dom());
            assert(r.sell_price_levels@ =~= level_contents(r.sell_orders_by_price).dom());
        }
        r
    }
}

/// The other side.
pub open spec fn other_side(t: OrderType) -> OrderType {
    match t {
        OrderType::Buy => OrderType::Sell,
        OrderType::Sell => OrderType::Buy,
    }
}

/// An order after an update of its amount, and of its status when one is given.
pub open spec fn updated_order(o: SpotOrder, amount: u128, status: Option<OrderStatus>) -> SpotOrder {
    SpotOrder {
        amount,
        status: match status {
            Some(s) => Some(s),
            None => o.status,
        },
        ..o
    }
}

/// The number of orders on a side fits in a `usize`.
pub open spec fn count_fits(c: PriceMap) -> bool {
    forall|ps: Seq<u128>| #[trigger] ascending(ps, c.dom()) ==> orders_in(c, ps) <= usize::MAX
}

/// Orders listed by keys without duplicates over the same keys are the same orders.
proof fn lemma_keyed_same(
    l: LevelMap,
    ka: Seq<Seq<char>>,
    a: Seq<SpotOrder>,
    kb: Seq<Seq<char>>,
    b: Seq<SpotOrder>,
)
    requires
        ka.len() == a.len(),
        kb.len() == b.len(),
        ka.no_duplicates(),
        kb.no_duplicates(),
        ka.to_set() == kb.to_set(),
        forall|i: int| 0 <= i < a.len() ==> a[i] == l[#[trigger] ka[i]],
        forall|i: int| 0 <= i < b.len() ==> b[i] == l[#[trigger] kb[i]],
    ensures
        a.to_multiset() == b.to_multiset(),
    decreases ka.len(),
{
    broadcast use vstd::multiset::group_multiset_axioms;

    if ka.len() == 0 {
        if kb.len() > 0 {
            assert(kb.to_set().contains(kb[0]));
        }
        assert(a =~= b);
    } else {
        let n = ka.len() - 1;
        let k = ka[n];
        assert(ka.to_set().contains(k));
        let j = choose|j: int| 0 <= j < kb.len() && kb[j] == k;
        lemma_remove_no_dup(ka, n);
        lemma_remove_no_dup(kb, j);
        let a1 = a.remove(n);
        let b1 = b.remove(j);
        assert forall|i: int| 0 <= i < a1.len() implies a1[i] == l[#[trigger] ka.remove(n)[i]] by {
            assert(a1[i] == a[i] && ka.remove(n)[i] == ka[i]);
        }
        assert forall|i: int| 0 <= i < b1.len() implies b1[i] == l[#[trigger] kb.remove(j)[i]] by {
            if i < j {
                assert(b1[i] == b[i] && kb.remove(j)[i] == kb[i]);
            } else {
                assert(b1[i] == b[i + 1] && kb.remove(j)[i] == kb[i + 1]);
            }
        }
        lemma_keyed_same(l, ka.remove(n), a1, kb.remove(j), b1);
        vstd::seq_lib::to_multiset_remove(a, n);
        vstd::seq_lib::to_multiset_remove(b, j);
        assert(a[n] == b[j]);
        vstd::seq_lib::to_multiset_contains(a, a[n]);
        vstd::seq_lib::to_multiset_contains(b, b[j]);
        assert(a.contains(a[n]));
        assert(b.contains(b[j]));
        assert(a.to_multiset() =~= a.to_multiset().remove(a[n]).insert(a[n]));
        assert(b.to_multiset() =~= b.to_multiset().remove(b[j]).insert(b[j]));
    }
}

/// Two listings of the same level hold the same orders.
pub proof fn lemma_level_listings_same(l: LevelMap, a: Seq<SpotOrder>, b: Seq<SpotOrder>)
    requires
        level_listing(l, a),
        level_listing(l, b),
    ensures
        a.to_multiset() == b.to_multiset(),
{
    let ka = choose|ks: Seq<Seq<char>>|
        #![trigger ks.to_set()]
        ks.len() == a.len() && ks.no_duplicates() && ks.to_set() == l.dom() && forall|i: int|
            0 <= i < a.len() ==> a[i] == l[#[trigger] ks[i]];
    let kb = choose|ks: Seq<Seq<char>>|
        #![trigger ks.to_set()]
        ks.len() == b.len() && ks.no_duplicates() && ks.to_set() == l.dom() && forall|i: int|
            0 <= i < b.len() ==> b[i] == l[#[trigger] ks[i]];
    lemma_keyed_same(l, ka, a, kb, b);
}

/// Two listings of the same levels, by the same prices, hold the same orders.
proof fn lemma_listed_same(c: PriceMap, ps: Seq<u128>, r1: Seq<SpotOrder>, r2: Seq<SpotOrder>)
    requires
        listed_by_price(c, ps, r1),
        listed_by_price(c, ps, r2),
    ensures
        r1.to_multiset() == r2.to_multiset(),
    decreases ps.len(),
{
    if ps.len() == 0 {
        assert(r1 =~= r2);
    } else {
        let k1 = choose|k: int|
            0 <= k <= r1.len() && listed_by_price(c, ps.drop_last(), #[trigger] r1.take(k))
                && level_listing(level_at(c, ps.last()), r1.skip(k));
        let k2 = choose|k: int|
            0 <= k <= r2.len() && listed_by_price(c, ps.drop_last(), #[trigger] r2.take(k))
                && level_listing(level_at(c, ps.last()), r2.skip(k));
        lemma_listed_same(c, ps.drop_last(), r1.take(k1), r2.take(k2));
        lemma_level_listings_same(level_at(c, ps.last()), r1.skip(k1), r2.skip(k2));
        assert(r1 =~= r1.take(k1) + r1.skip(k1));
        assert(r2 =~= r2.take(k2) + r2.skip(k2));
        vstd::seq_lib::lemma_multiset_commutative(r1.take(k1), r1.skip(k1));
        vstd::seq_lib::lemma_multiset_commutative(r2.take(k2), r2.skip(k2));
    }
}

/// Two listings of a side's buy levels hold the same orders.
pub proof fn lemma_best_buys_listings_same(c: PriceMap, r1: Seq<SpotOrder>, r2: Seq<SpotOrder>)
    requires
        best_buys_listing(c, r1),
        best_buys_listing(c, r2),
    ensures
        r1.to_multiset() == r2.to_multiset(),
{
    let p1 = choose|ps: Seq<u128>| ascending(ps, c.dom()) && listed_by_price(c, ps.reverse(), r1);
    let p2 = choose|ps: Seq<u128>| ascending(ps, c.dom()) && listed_by_price(c, ps.reverse(), r2);
    lemma_ascending_unique(p1, p2, c.dom());
    lemma_listed_same(c, p1.reverse(), r1, r2);
}

/// Two listings of a side's sell levels hold the same orders.
pub proof fn lemma_best_sells_listings_same(c: PriceMap, r1: Seq<SpotOrder>, r2: Seq<SpotOrder>)
    requires
        best_sells_listing(c, r1),
        best_sells_listing(c, r2),
    ensures
        r1.to_multiset() == r2.to_multiset(),
{
    let p1 = choose|ps: Seq<u128>| ascending(ps, c.dom()) && listed_by_price(c, ps, r1);
    let p2 = choose|ps: Seq<u128>| ascending(ps, c.dom()) && listed_by_price(c, ps, r2);
    lemma_ascending_unique(p1, p2, c.dom());
    lemma_listed_same(c, p1, r1, r2);
}

impl OrderShard {
    /// Rests `order` at its price on its side, under its id; an order of that id at that
    /// price is replaced.
    pub fn add_order(&mut self, order: SpotOrder)
        requires
            old(self).wf(),
        ensures
            final(self).wf(),
            final(self).side(order.order_type) == side_after_add(old(self).side(order.order_type), order),
            final(self).side(other_side(order.order_type)) == old(self).side(
                other_side(order.order_type),
            ),
    {
        let price = order.price;
        let order_id = order.id.clone();
        match order.order_type {
            OrderType::Buy => {
                levels_insert(&mut self.buy_orders_by_price, price, order_id, order);
                self.buy_price_levels.insert(price);
                proof {
                    assert(self.buy_price_levels@ =~= level_contents(self.buy_orders_by_price).dom());
                }
            },
            OrderType::Sell => {
                levels_insert(&mut self.sell_orders_by_price, price, order_id, order);
                self.sell_price_levels.insert(price);
                proof {
                    assert(self.sell_price_levels@ =~= level_contents(
                        self.sell_orders_by_price,
                    ).dom());
                }
            },
        }
    }

    /// Takes the order `order_id` out of the level at `price` on one side. The level must keep
    /// another order: taking out a level's last order blocks forever, the level being
    /// dropped from the map while it is still borrowed.
    pub fn remove_order(&mut self, order_id: &str, price: u128, order_type: OrderType)
        requires
            old(self).wf(),
            removal_keeps_level(old(self).side(order_type), order_id@, price),
        ensures
            final(self).wf(),
            final(self).side(order_type) == side_after_remove(old(self).side(order_type), order_id@, price),
            final(self).side(other_side(order_type)) == old(self).side(other_side(order_type)),
    {
        match order_type {
            OrderType::Buy => {
                levels_remove_in_level(&mut self.buy_orders_by_price, price, order_id);
                if levels_level_len(&self.buy_orders_by_price, price) == 0 {
                    levels_remove_level(&mut self.buy_orders_by_price, price);
                    self.buy_price_levels.remove(&price);
                }
                proof {
                    assert(self.buy_price_levels@ =~= level_contents(self.buy_orders_by_price).dom());
                }
            },
            OrderType::Sell => {
                levels_remove_in_level(&mut self.sell_orders_by_price, price, order_id);
                if levels_level_len(&self.sell_orders_by_price, price) == 0 {
                    levels_remove_level(&mut self.sell_orders_by_price, price);
                    self.sell_price_levels.remove(&price);
                }
                proof {
                    assert(self.sell_price_levels@ =~= level_contents(
                        self.sell_orders_by_price,
                    ).dom());
                }
            },
        }
    }
}

/// The levels of a side after `o` rests at its price under its id.
pub open spec fn side_after_add(c: PriceMap, o: SpotOrder) -> PriceMap {
    c.insert(o.price, level_at(c, o.price).insert(o.id@, o))
}

/// The levels of a side after order `id` leaves the level at `price`.
pub open spec fn side_after_remove(c: PriceMap, id: Seq<char>, price: u128) -> PriceMap {
    if c.contains_key(price) {
        c.insert(price, c[price].remove(id))
    } else {
        c
    }
}

/// Taking order `id` out of the level at `price` leaves that level, when present, an order.
pub open spec fn removal_keeps_level(c: PriceMap, id: Seq<char>, price: u128) -> bool {
    !(c.contains_key(price) && c[price].remove(id).dom().len() == 0)
}

/// An update of order `id` at `price` to `amount` does not zero an order that is there.
pub open spec fn update_keeps_order(c: PriceMap, id: Seq<char>, price: u128, amount: u128) -> bool {
    !(level_at(c, price).contains_key(id) && amount == 0)
}

/// The levels of a side after an update of order `id` at `price`: its amount, and its
/// status when one is given, are written to the order.
pub open spec fn side_after_update(
    c: PriceMap,
    id: Seq<char>,
    price: u128,
    amount: u128,
    status: Option<OrderStatus>,
) -> PriceMap {
    if level_at(c, price).contains_key(id) {
        c.insert(price, c[price].insert(id, updated_order(c[price][id], amount, status)))
    } else {
        c
    }
}

/// The levels of a side after order `id` at `price` takes status `status`.
pub open spec fn side_after_status(c: PriceMap, id: Seq<char>, price: u128, status: OrderStatus) -> PriceMap {
    if level_at(c, price).contains_key(id) {
        c.insert(price, c[price].insert(id, SpotOrder { status: Some(status), ..c[price][id] }))
    } else {
        c
    }
}

fn update_in_levels(
    m: &mut DashMap<u128, DashMap<String, SpotOrder>>,
    Ghost(prices): Ghost<Set<u128>>,
    Ghost(side): Ghost<OrderType>,
    order_id: &str,
    price: u128,
    new_amount: u128,
    status: Option<OrderStatus>,
)
    requires
        wf_levels(level_contents(*old(m)), prices, side),
        update_keeps_order(level_contents(*old(m)), order_id@, price, new_amount),
    ensures
        wf_levels(level_contents(*final(m)), prices, side),
        level_contents(*final(m)) == side_after_update(
            level_contents(*old(m)),
            order_id@,
            price,
            new_amount,
            status,
        ),
{
    let ghost c = level_contents(*m);
    match levels_get_order(m, price, order_id) {
        Some(mut order) => {
            if let Some(new_status) = status {
                order.status = Some(new_status);
            }
            if new_amount > 0 {
                order.amount = new_amount;
                levels_replace_order(m, price, order_id, order);
                proof {
                    let c2 = level_contents(*m);
                    assert(c2.dom() =~= c.dom());
                    assert forall|p: u128| #[trigger] c2.contains_key(p) implies c2[p].dom().finite() by {
                        if p == price {
                            assert(c2[p].dom() =~= c[p].dom());
                        }
                    }
                }
            } else {
                levels_remove_in_level(m, price, order_id);
                proof {
                    let c2 = level_contents(*m);
                    assert(c2.dom() =~= c.dom());
                }
            }
        },
        None => {},
    }
}

fn status_in_levels(
    m: &mut DashMap<u128, DashMap<String, SpotOrder>>,
    Ghost(prices): Ghost<Set<u128>>,
    Ghost(side): Ghost<OrderType>,
    order_id: &str,
    price: u128,
    new_status: OrderStatus,
)
    requires
        wf_levels(level_contents(*old(m)), prices, side),
    ensures
        wf_levels(level_contents(*final(m)), prices, side),
        level_contents(*final(m)) == side_after_status(
            level_contents(*old(m)),
            order_id@,
            price,
            new_status,
        ),
{
    let ghost c = level_contents(*m);
    match levels_get_order(m, price, order_id) {
        Some(mut order) => {
            order.status = Some(new_status);
            levels_replace_order(m, price, order_id, order);
            proof {
                let c2 = level_contents(*m);
                assert(c2.dom() =~= c.dom());
                assert forall|p: u128| #[trigger] c2.contains_key(p) implies c2[p].dom().finite() by {
                    if p == price {
                        assert(c2[p].dom() =~= c[p].dom());
                    }
                }
            }
        },
        None => {},
    }
}

fn list_levels(
    m: &DashMap<u128, DashMap<String, SpotOrder>>,
    prices: &BTreeSet<u128>,
    descending: bool,
) -> (r: Vec<SpotOrder>)
    ensures
        exists|ps: Seq<u128>|
            ascending(ps, prices@) && listed_by_price(
                level_contents(*m),
                if descending {
                    ps.reverse()
                } else {
                    ps
                },
                r@,
            ),
{
    let ghost c = level_contents(*m);
    let ps = ascending_prices(prices);
    let n = ps.len();
    let ghost order = if descending {
        ps@.reverse()
    } else {
        ps@
    };
    let mut r: Vec<SpotOrder> = Vec::new();
    let mut k: usize = 0;
    assert(listed_by_price(c, order.take(0), r@)) by {
        assert(order.take(0).len() == 0);
    }
    while k < n
        invariant
            n == ps@.len(),
            k <= n,
            c == level_contents(*m),
            order == (if descending {
                ps@.reverse()
            } else {
                ps@
            }),
            order.len() == n,
            listed_by_price(c, order.take(k as int), r@),
        decreases n - k,
    {
        let price = if descending {
            ps[n - 1 - k]
        } else {
            ps[k]
        };
        assert(price == order[k as int]);
        let mut chunk = levels_orders_at(m, price);
        let ghost before = r@;
        let ghost piece = chunk@;
        r.append(&mut chunk);
        proof {
            assert(order.take(k + 1).drop_last() =~= order.take(k as int));
            lemma_listed_step(c, order.take(k + 1), before, piece);
        }
        k = k + 1;
    }
    assert(order.take(n as int) =~= order);
    r
}

proof fn lemma_listed_step(c: PriceMap, ps: Seq<u128>, r1: Seq<SpotOrder>, r2: Seq<SpotOrder>)
    requires
        ps.len() > 0,
        listed_by_price(c, ps.drop_last(), r1),
        level_listing(level_at(c, ps.last()), r2),
    ensures
        listed_by_price(c, ps, r1 + r2),
{
    let r = r1 + r2;
    assert(r.take(r1.len() as int) =~= r1);
    assert(r.skip(r1.len() as int) =~= r2);
}

fn count_levels(m: &DashMap<u128, DashMap<String, SpotOrder>>, prices: &BTreeSet<u128>) -> (r: usize)
    requires
        count_fits(level_contents(*m)),
        prices@ == level_contents(*m).dom(),
    ensures
        exists|ps: Seq<u128>| ascending(ps, prices@) && r == orders_in(level_contents(*m), ps),
{
    let ghost c = level_contents(*m);
    let ps = ascending_prices(prices);
    let n = ps.len();
    let mut total: usize = 0;
    let mut k: usize = 0;
    proof {
        assert(ps@.take(0).len() == 0);
        lemma_orders_in_prefix(c, ps@, 0);
    }
    while k < n
        invariant
            n == ps@.len(),
            k <= n,
            c == level_contents(*m),
            ascending(ps@, c.dom()),
            orders_in(c, ps@) <= usize::MAX,
            total == orders_in(c, ps@.take(k as int)),
        decreases n - k,
    {
        let len = levels_level_len(m, ps[k]);
        proof {
            assert(ps@.take(k + 1).drop_last() =~= ps@.take(k as int));
            lemma_orders_in_prefix(c, ps@, k + 1);
        }
        total = total + len;
        k = k + 1;
    }
    assert(ps@.take(n as int) =~= ps@);
    total
}

/// The count over a prefix of prices is at most the count over all of them.
proof fn lemma_orders_in_prefix(c: PriceMap, ps: Seq<u128>, k: int)
    requires
        0 <= k <= ps.len(),
    ensures
        0 <= orders_in(c, ps.take(k)) <= orders_in(c, ps),
    decreases ps.len() - k,
{
    if k < ps.len() {
        lemma_orders_in_prefix(c, ps, k + 1);
        assert(ps.take(k + 1).drop_last() =~= ps.take(k));
        lemma_orders_in_nonneg(c, ps.take(k));
        assert(orders_in(c, ps.take(k + 1)) == orders_in(c, ps.take(k)) + level_at(
            c,
            ps.take(k + 1).last(),
        ).dom().len());
    } else {
        assert(ps.take(k) =~= ps);
        lemma_orders_in_nonneg(c, ps);
    }
}

proof fn lemma_orders_in_nonneg(c: PriceMap, ps: Seq<u128>)
    ensures
        orders_in(c, ps) >= 0,
    decreases ps.len(),
{
    if ps.len() > 0 {
        lemma_orders_in_nonneg(c, ps.drop_last());
    }
}

fn price_range(prices: &BTreeSet<u128>) -> (r: Option<(u128, u128)>)
    ensures
        r is None <==> prices@ =~= Set::<u128>::empty(),
        r matches Some((lo, hi)) ==> prices@.contains(lo) && prices@.contains(hi) && forall|x: u128|
            prices@.contains(x) ==> lo <= x <= hi,
{
    let ps = ascending_prices(prices);
    proof {
        lemma_ascending_empty(ps@, prices@);
    }
    if ps.len() == 0 {
        None
    } else {
        proof {
            lemma_ascending_min_max(ps@, prices@);
        }
        Some((ps[0], ps[ps.len() - 1]))
    }
}

/// The views of some strings.
pub open spec fn id_views(v: Seq<String>) -> Seq<Seq<char>> {
    v.map_values(|s: String| s@)
}

/// The levels of a side without the orders whose ids are in `ids`; a level left without
/// orders goes.
pub open spec fn side_without_ids(c: PriceMap, ids: Set<Seq<char>>) -> PriceMap {
    Map::new(
        |p: u128| c.contains_key(p) && exists|k: Seq<char>| #[trigger] c[p].contains_key(k) && !ids.contains(k),
        |p: u128| c[p].remove_keys(ids),
    )
}

/// Once the orders of some ids are taken out, no level holds any of those ids, every level
/// holds an order, and every order left is where it was.
pub proof fn lemma_without_ids(c: PriceMap, ids: Set<Seq<char>>)
    ensures
        forall|p: u128, k: Seq<char>|
            side_without_ids(c, ids).contains_key(p) && ids.contains(k) ==> !#[trigger] side_without_ids(
                c,
                ids,
            )[p].contains_key(k),
        forall|p: u128|
            #[trigger] side_without_ids(c, ids).contains_key(p) ==> side_without_ids(c, ids)[p].dom()
                != Set::<Seq<char>>::empty(),
        forall|p: u128, k: Seq<char>|
            c.contains_key(p) && #[trigger] c[p].contains_key(k) && !ids.contains(k) ==> side_without_ids(
                c,
                ids,
            ).contains_key(p) && side_without_ids(c, ids)[p][k] == c[p][k],
{
    let r = side_without_ids(c, ids);
    assert forall|p: u128| #[trigger] r.contains_key(p) implies r[p].dom() != Set::<Seq<char>>::empty() by {
        let k = choose|k: Seq<char>| #[trigger] c[p].contains_key(k) && !ids.contains(k);
        assert(r[p].dom().contains(k));
    }
}

fn remove_ids_at_price(
    m: &mut DashMap<u128, DashMap<String, SpotOrder>>,
    price: u128,
    ids: &Vec<String>,
)
    requires
        level_contents(*old(m)).contains_key(price),
    ensures
        level_contents(*final(m)) == level_contents(*old(m)).insert(
            price,
            level_contents(*old(m))[price].remove_keys(id_views(ids@).to_set()),
        ),
{
    let ghost c0 = level_contents(*m);
    let n = ids.len();
    let mut j: usize = 0;
    proof {
        assert(c0.insert(price, c0[price].remove_keys(id_views(ids@.take(0)).to_set())) =~= c0) by {
            assert(id_views(ids@.take(0)).to_set() =~= Set::<Seq<char>>::empty());
            assert(c0[price].remove_keys(Set::<Seq<char>>::empty()) =~= c0[price]);
        }
    }
    while j < n
        invariant
            n == ids@.len(),
            j <= n,
            c0.contains_key(price),
            level_contents(*m) == c0.insert(price, c0[price].remove_keys(id_views(ids@.take(j as int)).to_set())),
        decreases n - j,
    {
        let ghost before = id_views(ids@.take(j as int));
        levels_remove_in_level(m, price, ids[j].as_str());
        proof {
            let after = id_views(ids@.take(j + 1));
            assert(after =~= before.push(ids@[j as int]@));
            before.lemma_push_to_set_commute(ids@[j as int]@);
            assert(c0[price].remove_keys(before.to_set()).remove(ids@[j as int]@) =~= c0[price].remove_keys(
                after.to_set(),
            ));
        }
        j = j + 1;
    }
    assert(ids@.take(n as int) =~= ids@);
}

fn remove_ids_in_levels(
    m: &mut DashMap<u128, DashMap<String, SpotOrder>>,
    prices: &mut BTreeSet<u128>,
    Ghost(side): Ghost<OrderType>,
    ids: &Vec<String>,
)
    requires
        wf_levels(level_contents(*old(m)), old(prices)@, side),
    ensures
        wf_levels(level_contents(*final(m)), final(prices)@, side),
        level_contents(*final(m)) == side_without_ids(level_contents(*old(m)), id_views(ids@).to_set()),
{
    let ghost c0 = level_contents(*m);
    let ghost gone = id_views(ids@).to_set();
    let ghost target = side_without_ids(c0, gone);
    let ps = ascending_prices(prices);
    let n = ps.len();
    let mut k: usize = 0;
    while k < n
        invariant
            n == ps@.len(),
            k <= n,
            ascending(ps@, c0.dom()),
            c0.dom().finite(),
            gone == id_views(ids@).to_set(),
            target == side_without_ids(c0, gone),
            prices@ == level_contents(*m).dom(),
            forall|p: u128| #[trigger] c0.contains_key(p) ==> c0[p].dom().finite(),
            forall|p: u128, q: Seq<char>|
                #![trigger c0[p][q]]
                c0.contains_key(p) && c0[p].contains_key(q) ==> c0[p][q].price == p && c0[p][q].order_type
                    == side && c0[p][q].id@ == q,
            forall|p: u128|
                #![trigger level_contents(*m).contains_key(p)]
                if ps@.take(k as int).contains(p) {
                    level_contents(*m).contains_key(p) == target.contains_key(p) && (target.contains_key(p)
                        ==> level_contents(*m)[p] == target[p])
                } else {
                    level_contents(*m).contains_key(p) == c0.contains_key(p) && (c0.contains_key(p)
                        ==> level_contents(*m)[p] == c0[p])
                },
        decreases n - k,
    {
        let price = ps[k];
        proof {
            assert(ps@.contains(price));
            let t0 = ps@.take(k as int);
            assert(!t0.contains(price)) by {
                if t0.contains(price) {
                    let i = choose|i: int| 0 <= i < t0.len() && t0[i] == price;
                    assert(ps@[i] == ps@[k as int]);
                }
            }
            assert(level_contents(*m).contains_key(price));
        }
        let ghost before = level_contents(*m);
        remove_ids_at_price(m, price, ids);
        let ghost after_removal = level_contents(*m);
        proof {
            assert(after_removal[price] == c0[price].remove_keys(gone));
            assert(after_removal[price].dom().subset_of(c0[price].dom()));
            vstd::set_lib::lemma_len_subset(after_removal[price].dom(), c0[price].dom());
        }
        if levels_level_len(m, price) == 0 {
            levels_remove_level(m, price);
            prices.remove(&price);
            proof {
                assert(after_removal[price].dom() =~= Set::<Seq<char>>::empty()) by {
                    after_removal[price].dom().lemma_len0_is_empty();
                }
                assert(!target.contains_key(price)) by {
                    if target.contains_key(price) {
                        let q = choose|q: Seq<char>| #[trigger] c0[price].contains_key(q) && !gone.contains(q);
                        assert(after_removal[price].contains_key(q));
                    }
                }
            }
        } else {
            proof {
                assert(target.contains_key(price)) by {
                    let q = after_removal[price].dom().choose();
                    if after_removal[price].dom().len() > 0 {
                        assert(after_removal[price].dom().contains(q));
                    }
                    assert(c0[price].contains_key(q) && !gone.contains(q));
                }
            }
        }
        proof {
            let t0 = ps@.take(k as int);
            let t1 = ps@.take(k + 1);
            assert(t1 =~= t0.push(price));
            assert forall|p: u128| #[trigger] level_contents(*m).contains_key(p) == level_contents(*m).contains_key(p) implies (
                if t1.contains(p) {
                    level_contents(*m).contains_key(p) == target.contains_key(p) && (target.contains_key(p)
                        ==> level_contents(*m)[p] == target[p])
                } else {
                    level_contents(*m).contains_key(p) == c0.contains_key(p) && (c0.contains_key(p)
                        ==> level_contents(*m)[p] == c0[p])
                }) by {
                if p != price {
                    assert(t1.contains(p) == t0.contains(p)) by {
                        if t1.contains(p) {
                            let i = choose|i: int| 0 <= i < t1.len() && t1[i] == p;
                            assert(t0[i] == p);
                        }
                        if t0.contains(p) {
                            let i = choose|i: int| 0 <= i < t0.len() && t0[i] == p;
                            assert(t1[i] == p);
                        }
                    }
                    assert(before.contains_key(p) == level_contents(*m).contains_key(p));
                } else {
                    assert(t1[k as int] == price);
                }
            }
        }
        k = k + 1;
    }
    proof {
        assert(ps@.take(n as int) =~= ps@);
        let c = level_contents(*m);
        assert forall|p: u128| c.contains_key(p) <==> target.contains_key(p) by {
            if c0.contains_key(p) {
                assert(ps@.to_set().contains(p));
            }
            if ps@.contains(p) {
                assert(ps@.to_set().contains(p));
            }
            assert(c.contains_key(p) == c.contains_key(p));
        }
        assert(c =~= target) by {
            assert forall|p: u128| c.contains_key(p) implies c[p] == target[p] by {
                if c0.contains_key(p) {
                    assert(ps@.to_set().contains(p));
                }
                assert(c.contains_key(p) == c.contains_key(p));
            }
        }
        assert forall|p: u128| #[trigger] c.contains_key(p) implies c[p].dom().finite() by {
            assert(target.contains_key(p));
            let q = choose|q: Seq<char>| #[trigger] c0[p].contains_key(q) && !gone.contains(q);
            assert(c[p].contains_key(q));
            assert(c[p].dom() =~= c0[p].dom().filter(|x: Seq<char>| !gone.contains(x)));
            assert(c[p].dom().contains(q));
        }
        assert(c.dom().finite()) by {
            assert(c.dom().subset_of(c0.dom()));
            vstd::set_lib::lemma_len_subset(c.dom(), c0.dom());
        }
    }
}

impl OrderShard {
    /// Updates the order `order_id` at `price` on one side: its status when one is given, and
    /// its amount. The amount must not be zero for an order that is there: that update
    /// blocks forever, the order being taken out of its level while it is still borrowed.
    pub fn update_order(
        &mut self,
        order_id: &str,
        price: u128,
        new_amount: u128,
        status: Option<OrderStatus>,
        order_type: OrderType,
    )
        requires
            old(self).wf(),
            update_keeps_order(old(self).side(order_type), order_id@, price, new_amount),
        ensures
            final(self).wf(),
            final(self).side(order_type) == side_after_update(
                old(self).side(order_type),
                order_id@,
                price,
                new_amount,
                status,
            ),
            final(self).side(other_side(order_type)) == old(self).side(other_side(order_type)),
    {
        match order_type {
            OrderType::Buy => update_in_levels(
                &mut self.buy_orders_by_price,
                Ghost(self.buy_price_levels@),
                Ghost(OrderType::Buy),
                order_id,
                price,
                new_amount,
                status,
            ),
            OrderType::Sell => update_in_levels(
                &mut self.sell_orders_by_price,
                Ghost(self.sell_price_levels@),
                Ghost(OrderType::Sell),
                order_id,
                price,
                new_amount,
                status,
            ),
        }
    }

    /// Gives the order `order_id` at `price` the status `new_status`, on either side.
    pub fn update_order_status(&mut self, order_id: &str, price: u128, new_status: OrderStatus)
        requires
            old(self).wf(),
        ensures
            final(self).wf(),
            final(self).buys() == side_after_status(old(self).buys(), order_id@, price, new_status),
            final(self).sells() == side_after_status(
                old(self).sells(),
                order_id@,
                price,
                new_status,
            ),
    {
        status_in_levels(
            &mut self.buy_orders_by_price,
            Ghost(self.buy_price_levels@),
            Ghost(OrderType::Buy),
            order_id,
            price,
            new_status,
        );
        status_in_levels(
            &mut self.sell_orders_by_price,
            Ghost(self.sell_price_levels@),
            Ghost(OrderType::Sell),
            order_id,
            price,
            new_status,
        );
    }

    /// The buy orders, highest price first; within a price, in the shard's own order.
    pub fn get_best_buy_orders(&self) -> (r: Vec<SpotOrder>)
        requires
            self.wf(),
        ensures
            best_buys_listing(self.buys(), r@),
    {
        list_levels(&self.buy_orders_by_price, &self.buy_price_levels, true)
    }

    /// The sell orders, lowest price first; within a price, in the shard's own order.
    pub fn get_best_sell_orders(&self) -> (r: Vec<SpotOrder>)
        requires
            self.wf(),
        ensures
            best_sells_listing(self.sells(), r@),
    {
        list_levels(&self.sell_orders_by_price, &self.sell_price_levels, false)
    }

    /// The orders of one side at `price`, in the shard's own order.
    pub fn get_orders_by_price_and_time(&self, price: u128, _timestamp: u64, order_type: OrderType) -> (r:
        Vec<SpotOrder>)
        ensures
            level_listing(level_at(self.side(order_type), price), r@),
    {
        match order_type {
            OrderType::Buy => levels_orders_at(&self.buy_orders_by_price, price),
            OrderType::Sell => levels_orders_at(&self.sell_orders_by_price, price),
        }
    }

    /// Empties both sides.
    pub fn clear_orders(&mut self)
        ensures
            final(self).wf(),
            final(self).buys() == Map::<u128, LevelMap>::empty(),
            final(self).sells() == Map::<u128, LevelMap>::empty(),
    {
        levels_clear(&mut self.buy_orders_by_price);
        levels_clear(&mut self.sell_orders_by_price);
        self.buy_price_levels.clear();
        self.sell_price_levels.clear();
        assert(self.buy_price_levels@ =~= level_contents(self.buy_orders_by_price).dom());
        assert(self.sell_price_levels@ =~= level_contents(self.sell_orders_by_price).dom());
    }

    /// The lowest and highest buy prices, when there is a buy order.
    pub fn get_buy_price_range(&self) -> (r: Option<(u128, u128)>)
        requires
            self.wf(),
        ensures
            price_range_of(self.buys(), r),
    {
        price_range(&self.buy_price_levels)
    }

    /// The lowest and highest sell prices, when there is a sell order.
    pub fn get_sell_price_range(&self) -> (r: Option<(u128, u128)>)
        requires
            self.wf(),
        ensures
            price_range_of(self.sells(), r),
    {
        price_range(&self.sell_price_levels)
    }

    /// Takes out of both sides every order whose id is in `ids`; a level left without
    /// orders goes.
    pub fn remove_matched_orders(&mut self, ids: &Vec<String>)
        requires
            old(self).wf(),
        ensures
            final(self).wf(),
            final(self).buys() == side_without_ids(old(self).buys(), id_views(ids@).to_set()),
            final(self).sells() == side_without_ids(old(self).sells(), id_views(ids@).to_set()),
    {
        remove_ids_in_levels(
            &mut self.buy_orders_by_price,
            &mut self.buy_price_levels,
            Ghost(OrderType::Buy),
            ids,
        );
        remove_ids_in_levels(
            &mut self.sell_orders_by_price,
            &mut self.sell_price_levels,
            Ghost(OrderType::Sell),
            ids,
        );
    }

    /// The shard keeps no time range.
    pub fn get_time_range(&self) -> (r: Option<(u64, u64)>)
        ensures
            r is None,
    {
        None
    }

    /// The number of buy orders.
    pub fn get_buy_order_count(&self) -> (r: usize)
        requires
            self.wf(),
            count_fits(self.buys()),
        ensures
            order_count(self.buys(), r as int),
    {
        count_levels(&self.buy_orders_by_price, &self.buy_price_levels)
    }

    /// The number of sell orders.
    pub fn get_sell_order_count(&self) -> (r: usize)
        requires
            self.wf(),
            count_fits(self.sells()),
        ensures
            order_count(self.sells(), r as int),
    {
        count_levels(&self.sell_orders_by_price, &self.sell_price_levels)
    }
}

} // verus!
