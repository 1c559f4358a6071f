//! Serving matchers: choosing the batch of crossing orders a matcher is sent, and the
//! decisions taken on each message of a matcher connection.
use crate::indexer::spot_order::SpotOrder;
use crate::matchers::types::{MatcherConnectRequest, MatcherRequest, MatcherResponse};
use crate::storage::matching_orders::MatchingOrders;
use crate::storage::order_book::{
    level_at_price, lemma_orders_of_push, map_levels, map_prices, orders_of, side_listed,
    sorted_prices, BookState, Level, SideMap,
};
use crate::storage::order_storage::OrderStorage;
use crate::text::parse_usize;
use vstd::prelude::*;

verus! {

broadcast use vstd::seq_lib::group_seq_properties;

/// An order not handed to a matcher yet.
pub open spec fn not_matching(m: Set<Seq<char>>) -> spec_fn(SpotOrder) -> bool {
    |o: SpotOrder| !m.contains(o.id@)
}

/// `a` is served before `b`: better price first (highest for `price_desc`, lowest
/// otherwise), then earlier timestamp.
pub open spec fn key_before(a: SpotOrder, b: SpotOrder, price_desc: bool) -> bool {
    if a.price != b.price {
        if price_desc {
            a.price > b.price
        } else {
            a.price < b.price
        }
    } else {
        a.timestamp < b.timestamp
    }
}

/// Index of the first order that no other order is served before.
pub open spec fn first_min_index(s: Seq<SpotOrder>, d: bool) -> int
    decreases s.len(),
{
    if s.len() <= 1 {
        0
    } else {
        let j = first_min_index(s.drop_last(), d);
        if key_before(s.last(), s[j], d) {
            s.len() - 1
        } else {
            j
        }
    }
}

/// The first best order is an order of the sequence.
pub proof fn lemma_first_min_index_bounds(s: Seq<SpotOrder>, d: bool)
    ensures
        s.len() > 0 ==> 0 <= first_min_index(s, d) < s.len(),
    decreases s.len(),
{
    if s.len() > 1 {
        lemma_first_min_index_bounds(s.drop_last(), d);
    }
}

/// The stable sort of `s` by serving order: the first best order, then the sort of the rest.
pub open spec fn sort_orders(s: Seq<SpotOrder>, d: bool) -> Seq<SpotOrder>
    decreases s.len(),
{
    if s.len() == 0 {
        s
    } else {
        proof {
            lemma_first_min_index_bounds(s, d);
        }
        seq![s[first_min_index(s, d)]] + sort_orders(s.remove(first_min_index(s, d)), d)
    }
}

/// `o` with its amount replaced.
pub open spec fn with_amount(o: SpotOrder, amount: u128) -> SpotOrder {
    SpotOrder { amount, ..o }
}

/// The orders emitted and the ids marked when pairing the buy queue `b` against the sell
/// queue `s`, `out_len` orders having been emitted already: while both queues hold an order
/// and fewer than `batch` were emitted, a crossing head pair is emitted with the smaller
/// amount each and both heads are reduced by it, a head left empty leaving its queue; a sell
/// head priced above the buy head is skipped.
pub open spec fn pair_up(b: Seq<SpotOrder>, s: Seq<SpotOrder>, batch: int, out_len: int) -> (
    Seq<SpotOrder>,
    Seq<Seq<char>>,
)
    decreases b.len() + s.len(),
{
    if b.len() == 0 || s.len() == 0 || out_len >= batch {
        (Seq::empty(), Seq::empty())
    } else if b[0].price >= s[0].price {
        let t = if b[0].amount <= s[0].amount {
            b[0].amount
        } else {
            s[0].amount
        };
        let nb = if b[0].amount == t {
            b.drop_first()
        } else {
            b.update(0, with_amount(b[0], (b[0].amount - t) as u128))
        };
        let ns = if s[0].amount == t {
            s.drop_first()
        } else {
            s.update(0, with_amount(s[0], (s[0].amount - t) as u128))
        };
        let rest = pair_up(nb, ns, batch, out_len + 2);
        (
            seq![with_amount(b[0], t), with_amount(s[0], t)] + rest.0,
            seq![b[0].id@, s[0].id@] + rest.1,
        )
    } else {
        pair_up(b, s.drop_first(), batch, out_len)
    }
}

/// The batch served from `book` when the orders of `m` are being matched: the orders
/// emitted, and the ids then marked as being matched.
pub open spec fn available_batch(book: BookState, m: Set<Seq<char>>, batch: int) -> (
    Seq<SpotOrder>,
    Seq<Seq<char>>,
) {
    pair_up(
        sort_orders(orders_of(book.0).filter(not_matching(m)), true),
        sort_orders(orders_of(book.1).filter(not_matching(m)), false),
        batch,
        0,
    )
}

/// The views of a list of strings.
pub open spec fn string_views(v: Seq<String>) -> Seq<Seq<char>> {
    v.map_values(|s: String| s@)
}

/// The batch size a setting asks for: 25 when unset, the setting when it is a decimal
/// `usize`, and 10 otherwise.
pub open spec fn batch_size_of(setting: Option<Seq<char>>) -> usize {
    match setting {
        None => 25,
        Some(s) => match crate::text::parse_unsigned(s, usize::MAX as int) {
            Some(v) => v as usize,
            None => 10,
        },
    }
}

/// What a connection does with one message.
#[derive(Debug, PartialEq, Eq, Structural)]
pub enum ConnectionAction {
    /// Serve a batch to the connected matcher.
    ServeBatch,
    /// Take note of order updates from the connected matcher.
    OrderUpdates,
    /// The matcher is now known by its id.
    Connected,
    /// The message is ignored: it needs a connected matcher.
    Ignore,
    /// The message could not be read.
    Invalid,
}

fn serves_before(a: &SpotOrder, b: &SpotOrder, price_desc: bool) -> (r: bool)
    ensures
        r == key_before(*a, *b, price_desc),
{
    if a.price != b.price {
        if price_desc {
            a.price > b.price
        } else {
            a.price < b.price
        }
    } else {
        a.timestamp < b.timestamp
    }
}

fn first_min(v: &Vec<SpotOrder>, price_desc: bool) -> (r: usize)
    requires
        v@.len() > 0,
    ensures
        r == first_min_index(v@, price_desc),
        r < v@.len(),
{
    let n = v.len();
    let mut best: usize = 0;
    let mut j: usize = 1;
    assert(v@.take(1).len() == 1);
    while j < n
        invariant
            n == v@.len(),
            1 <= j <= n,
            best < j,
            best == first_min_index(v@.take(j as int), price_desc),
        decreases n - j,
    {
        assert(v@.take(j + 1).drop_last() =~= v@.take(j as int));
        assert(v@.take(j + 1)[best as int] == v@[best as int]);
        if serves_before(&v[j], &v[best], price_desc) {
            best = j;
        }
        j = j + 1;
    }
    assert(v@.take(n as int) =~= v@);
    best
}

/// Sorts orders by serving order, stably.
fn sort_queue(v: Vec<SpotOrder>, price_desc: bool) -> (r: Vec<SpotOrder>)
    ensures
        r@ == sort_orders(v@, price_desc),
{
    let ghost v0 = v@;
    let mut rem = v;
    let mut out: Vec<SpotOrder> = Vec::new();
    while rem.len() > 0
        invariant
            sort_orders(v0, price_desc) == out@ + sort_orders(rem@, price_desc),
        decreases rem@.len(),
    {
        let i = first_min(&rem, price_desc);
        let ghost before = rem@;
        let ghost out_before = out@;
        let x = rem.remove(i);
        out.push(x);
        assert(sort_orders(before, price_desc) == seq![x] + sort_orders(rem@, price_desc));
        assert(out_before + sort_orders(before, price_desc) =~= out@ + sort_orders(
            rem@,
            price_desc,
        ));
    }
    assert(out@ + sort_orders(rem@, price_desc) =~= out@);
    out
}

/// The orders of one side not being matched, level after level.
fn collect_unmatched(levels: &SideMap, matching: &MatchingOrders) -> (r: Vec<SpotOrder>)
    ensures
        r@ == orders_of(map_levels(levels@)).filter(not_matching(matching@)),
{
    let ghost t = map_levels(levels@);
    let ghost p = not_matching(matching@);
    let prices = map_prices(levels);
    let mut r: Vec<SpotOrder> = Vec::new();
    let n = prices.len();
    let mut i: usize = 0;
    while i < n
        invariant
            n == prices@.len(),
            prices@ == sorted_prices(levels@.dom()),
            side_listed(levels@),
            t == map_levels(levels@),
            t.len() == n,
            p == not_matching(matching@),
            i <= n,
            r@ == orders_of(t.take(i as int)).filter(p),
        decreases n - i,
    {
        let level = level_at_price(levels, prices[i]);
        let m = level.len();
        let mut j: usize = 0;
        while j < m
            invariant
                m == level@.len(),
                level@ == t[i as int].1,
                p == not_matching(matching@),
                j <= m,
                r@ == orders_of(t.take(i as int)).filter(p) + level@.take(j as int).filter(
                    p,
                ),
            decreases m - j,
        {
            let o = &level[j];
            proof {
                assert(level@.take(j + 1) =~= level@.take(j as int).push(*o));
                level@.take(j as int).lemma_filter_push(*o, p);
            }
            if !matching.contains(o.id.as_str()) {
                r.push(o.clone());
            }
            j = j + 1;
        }
        proof {
            assert(level@.take(m as int) =~= level@);
            assert(t.take(i + 1) =~= t.take(i as int).push(t[i as int]));
            lemma_orders_of_push(t.take(i as int), t[i as int]);
            Seq::filter_distributes_over_add(orders_of(t.take(i as int)), t[i as int].1, p);
        }
        i = i + 1;
    }
    assert(t.take(n as int) =~= t);
    r
}

/// The set of strings after each string of `ids` is put in.
proof fn lemma_add_all_step(m: Set<Seq<char>>, ids: Seq<Seq<char>>, k: int)
    requires
        0 <= k < ids.len(),
    ensures
        m.union(ids.take(k + 1).to_set()) == m.union(ids.take(k).to_set()).insert(ids[k]),
{
    assert(ids.take(k + 1) =~= ids.take(k).push(ids[k]));
    assert(ids.take(k + 1).to_set() =~= ids.take(k).to_set().insert(ids[k])) by {
        assert forall|x: Seq<char>| #[trigger] ids.take(k + 1).to_set().contains(x) <==> ids.take(
            k,
        ).to_set().insert(ids[k]).contains(x) by {
            let long = ids.take(k + 1);
            let short = ids.take(k);
            if long.contains(x) {
                let a = choose|a: int| 0 <= a < long.len() && #[trigger] long[a] == x;
                if a < k {
                    assert(short[a] == x);
                }
            }
            if short.contains(x) {
                let a = choose|a: int| 0 <= a < short.len() && #[trigger] short[a] == x;
                assert(long[a] == x);
            }
            if x == ids[k] {
                assert(ids.take(k + 1)[k] == x);
            }
        }
    }
    assert(m.union(ids.take(k + 1).to_set()) =~= m.union(ids.take(k).to_set()).insert(ids[k]));
}

/// Serves matchers from a store of orders.
pub struct MatcherWebSocket {
    pub storage: OrderStorage,
}

impl MatcherWebSocket {
    /// A server over `storage`.
    pub fn new(storage: OrderStorage) -> (r: Self)
        ensures
            r.storage == storage,
    {
        Self { storage }
    }

    /// Chooses up to about `batch_size` orders for a matcher: the buy orders not being
    /// matched, best price first, are paired with the sell orders not being matched, best
    /// price first, each crossing pair emitted with the amount both can trade; the emitted
    /// orders' ids are then marked as being matched.
    pub fn get_available_orders(&mut self, batch_size: usize) -> (r: Vec<SpotOrder>)
        requires
            old(self).storage.wf(),
        ensures
            final(self).storage.wf(),
            final(self).storage.order_book@ == old(self).storage.order_book@,
            r@ == available_batch(
                old(self).storage.order_book@,
                old(self).storage.matching_orders@,
                batch_size as int,
            ).0,
            final(self).storage.matching_orders@ == old(self).storage.matching_orders@.union(
                available_batch(
                    old(self).storage.order_book@,
                    old(self).storage.matching_orders@,
                    batch_size as int,
                ).1.to_set(),
            ),
    {
        let ghost book = self.storage.order_book@;
        let ghost m0 = self.storage.matching_orders@;
        let buy_orders = collect_unmatched(
            self.storage.order_book.get_buy_orders(),
            &self.storage.matching_orders,
        );
        let sell_orders = collect_unmatched(
            self.storage.order_book.get_sell_orders(),
            &self.storage.matching_orders,
        );
        let mut buy_queue = sort_queue(buy_orders, true);
        let mut sell_queue = sort_queue(sell_orders, false);
        let ghost total = available_batch(book, m0, batch_size as int);
        assert(buy_queue@.skip(0) =~= buy_queue@);
        assert(sell_queue@.skip(0) =~= sell_queue@);
        let mut available_orders: Vec<SpotOrder> = Vec::new();
        let mut new_ids: Vec<String> = Vec::new();
        let mut buy_index: usize = 0;
        let mut sell_index: usize = 0;
        while buy_index < buy_queue.len() && sell_index < sell_queue.len()
            && available_orders.len() < batch_size
            invariant
                buy_index <= buy_queue@.len(),
                sell_index <= sell_queue@.len(),
                total.0 == available_orders@ + pair_up(
                    buy_queue@.skip(buy_index as int),
                    sell_queue@.skip(sell_index as int),
                    batch_size as int,
                    available_orders@.len() as int,
                ).0,
                total.1 == string_views(new_ids@) + pair_up(
                    buy_queue@.skip(buy_index as int),
                    sell_queue@.skip(sell_index as int),
                    batch_size as int,
                    available_orders@.len() as int,
                ).1,
            decreases buy_queue@.len() - buy_index + sell_queue@.len() - sell_index,
        {
            let ghost b = buy_queue@.skip(buy_index as int);
            let ghost s = sell_queue@.skip(sell_index as int);
            let ghost out_len = available_orders@.len() as int;
            assert(b[0] == buy_queue@[buy_index as int]);
            assert(s[0] == sell_queue@[sell_index as int]);
            let buy_order = buy_queue[buy_index].clone();
            let sell_order = sell_queue[sell_index].clone();
            if buy_order.price >= sell_order.price {
                let trade_amount = if buy_order.amount <= sell_order.amount {
                    buy_order.amount
                } else {
                    sell_order.amount
                };
                let mut matched_buy_order = buy_order.clone();
                matched_buy_order.amount = trade_amount;
                let mut matched_sell_order = sell_order.clone();
                matched_sell_order.amount = trade_amount;
                let ghost prev_out = available_orders@;
                let ghost prev_ids = string_views(new_ids@);
                available_orders.push(matched_buy_order);
                available_orders.push(matched_sell_order);
                new_ids.push(buy_order.id.clone());
                new_ids.push(sell_order.id.clone());
                let mut rest_buy = buy_order.clone();
                rest_buy.amount = buy_order.amount - trade_amount;
                let mut rest_sell = sell_order.clone();
                rest_sell.amount = sell_order.amount - trade_amount;
                let ghost bq = buy_queue@;
                let ghost sq = sell_queue@;
                buy_queue.set(buy_index, rest_buy);
                sell_queue.set(sell_index, rest_sell);
                proof {
                    let nb = if b[0].amount == trade_amount {
                        b.drop_first()
                    } else {
                        b.update(0, with_amount(b[0], (b[0].amount - trade_amount) as u128))
                    };
                    let ns = if s[0].amount == trade_amount {
                        s.drop_first()
                    } else {
                        s.update(0, with_amount(s[0], (s[0].amount - trade_amount) as u128))
                    };
                    let nbi: int = if b[0].amount == trade_amount {
                        buy_index + 1
                    } else {
                        buy_index as int
                    };
                    let nsi: int = if s[0].amount == trade_amount {
                        sell_index + 1
                    } else {
                        sell_index as int
                    };
                    assert(buy_queue@.skip(nbi) =~= nb);
                    assert(sell_queue@.skip(nsi) =~= ns);
                    assert(available_orders@ =~= prev_out + seq![
                        with_amount(b[0], trade_amount),
                        with_amount(s[0], trade_amount),
                    ]);
                    assert(string_views(new_ids@) =~= prev_ids + seq![b[0].id@, s[0].id@]);
                    let rest = pair_up(nb, ns, batch_size as int, out_len + 2);
                    assert(pair_up(b, s, batch_size as int, out_len) == (
                        seq![with_amount(b[0], trade_amount), with_amount(s[0], trade_amount)]
                            + rest.0,
                        seq![b[0].id@, s[0].id@] + rest.1,
                    ));
                    assert(total.0 =~= available_orders@ + rest.0);
                    assert(total.1 =~= string_views(new_ids@) + rest.1);
                }
                if buy_queue[buy_index].amount == 0 {
                    buy_index = buy_index + 1;
                }
                if sell_queue[sell_index].amount == 0 {
                    sell_index = sell_index + 1;
                }
            } else {
                assert(sell_queue@.skip(sell_index + 1) =~= s.drop_first());
                sell_index = sell_index + 1;
            }
        }
        proof {
            let rest = pair_up(
                buy_queue@.skip(buy_index as int),
                sell_queue@.skip(sell_index as int),
                batch_size as int,
                available_orders@.len() as int,
            );
            assert(rest.0 =~= Seq::<SpotOrder>::empty());
            assert(rest.1 =~= Seq::<Seq<char>>::empty());
            assert(total.0 =~= available_orders@);
            assert(total.1 =~= string_views(new_ids@));
        }
        let n = new_ids.len();
        let mut k: usize = 0;
        assert(m0.union(string_views(new_ids@).take(0).to_set()) =~= m0);
        while k < n
            invariant
                n == new_ids@.len(),
                k <= n,
                self.storage.wf(),
                self.storage.order_book@ == book,
                self.storage.matching_orders@ == m0.union(
                    string_views(new_ids@).take(k as int).to_set(),
                ),
            decreases n - k,
        {
            proof {
                lemma_add_all_step(m0, string_views(new_ids@), k as int);
            }
            self.storage.matching_orders.add(new_ids[k].as_str());
            k = k + 1;
        }
        assert(string_views(new_ids@).take(n as int) =~= string_views(new_ids@));
        available_orders
    }

    /// Prepares the answer to a batch request: the orders chosen by `get_available_orders`,
    /// or `NoOrders` when none is available.
    pub fn handle_batch_request(&mut self, batch_size: usize) -> (r: MatcherResponse)
        requires
            old(self).storage.wf(),
        ensures
            final(self).storage.wf(),
            final(self).storage.order_book@ == old(self).storage.order_book@,
            ({
                let batch = available_batch(
                    old(self).storage.order_book@,
                    old(self).storage.matching_orders@,
                    batch_size as int,
                );
                &&& final(self).storage.matching_orders@ == old(
                    self,
                ).storage.matching_orders@.union(batch.1.to_set())
                &&& match r {
                    MatcherResponse::Batch(v) => v@ == batch.0 && batch.0.len() > 0,
                    MatcherResponse::NoOrders => batch.0.len() == 0,
                    MatcherResponse::Ack => false,
                }
            }),
    {
        let available_orders = self.get_available_orders(batch_size);
        if available_orders.len() == 0 {
            MatcherResponse::NoOrders
        } else {
            MatcherResponse::Batch(available_orders)
        }
    }

    /// Hands the orders of a batch that could not be delivered back: their ids are no
    /// longer being matched.
    pub fn release_orders(&mut self, orders: &Vec<SpotOrder>)
        requires
            old(self).storage.wf(),
        ensures
            final(self).storage.wf(),
            final(self).storage.order_book@ == old(self).storage.order_book@,
            final(self).storage.matching_orders@ == old(self).storage.matching_orders@.difference(
                orders@.map_values(|o: SpotOrder| o.id@).to_set(),
            ),
    {
        let ghost m0 = self.storage.matching_orders@;
        let ghost ids = orders@.map_values(|o: SpotOrder| o.id@);
        let n = orders.len();
        let mut k: usize = 0;
        assert(m0.difference(ids.take(0).to_set()) =~= m0);
        while k < n
            invariant
                n == orders@.len(),
                ids == orders@.map_values(|o: SpotOrder| o.id@),
                k <= n,
                self.storage.wf(),
                self.storage.order_book@ == old(self).storage.order_book@,
                self.storage.matching_orders@ == m0.difference(ids.take(k as int).to_set()),
            decreases n - k,
        {
            proof {
                assert(ids.take(k + 1) =~= ids.take(k as int).push(ids[k as int]));
                assert(m0.difference(ids.take(k + 1).to_set()) =~= m0.difference(
                    ids.take(k as int).to_set(),
                ).remove(ids[k as int]));
            }
            self.storage.matching_orders.remove(orders[k].id.as_str());
            k = k + 1;
        }
        assert(ids.take(n as int) =~= ids);
    }
}

/// The batch size to serve for the `BATCH_SIZE` setting: 25 when unset, the setting when it
/// reads as a `usize`, and 10 otherwise.
pub fn batch_size_setting(setting: Option<&str>) -> (r: usize)
    ensures
        r == batch_size_of(
            match setting {
                Some(s) => Some(s@),
                None => None,
            },
        ),
{
    match setting {
        None => 25,
        Some(s) => match parse_usize(s) {
            Some(v) => v,
            None => 10,
        },
    }
}

/// The decision taken on one message of a matcher connection, given the matcher id known so
/// far (`None` for a message that could not be read): a connect message records the id; a
/// batch request or order updates are acted on only once an id is known.
pub fn handle_request(matcher_uuid: &mut Option<String>, request: Option<MatcherRequest>) -> (r:
    ConnectionAction)
    ensures
        ({
            let before = *old(matcher_uuid);
            let after = *final(matcher_uuid);
            match request {
                Some(MatcherRequest::Connect(c)) => r == ConnectionAction::Connected && after == Some(
                    c.uuid,
                ),
                Some(MatcherRequest::BatchRequest(_)) => after == before && r == (if before is Some {
                    ConnectionAction::ServeBatch
                } else {
                    ConnectionAction::Ignore
                }),
                Some(MatcherRequest::OrderUpdates(_)) => after == before && r == (if before is Some {
                    ConnectionAction::OrderUpdates
                } else {
                    ConnectionAction::Ignore
                }),
                None => after == before && r == ConnectionAction::Invalid,
            }
        }),
{
    match request {
        Some(MatcherRequest::BatchRequest(_)) => {
            if matcher_uuid.is_some() {
                ConnectionAction::ServeBatch
            } else {
                ConnectionAction::Ignore
            }
        },
        Some(MatcherRequest::OrderUpdates(_)) => {
            if matcher_uuid.is_some() {
                ConnectionAction::OrderUpdates
            } else {
                ConnectionAction::Ignore
            }
        },
        Some(MatcherRequest::Connect(MatcherConnectRequest { uuid })) => {
            *matcher_uuid = Some(uuid);
            ConnectionAction::Connected
        },
        None => ConnectionAction::Invalid,
    }
}

// ----------------------------------------------------------------------------------------
// Laws of batch selection
// ----------------------------------------------------------------------------------------

proof fn lemma_first_min_is_min(s: Seq<SpotOrder>, d: bool)
    requires
        s.len() > 0,
    ensures
        forall|k: int| 0 <= k < s.len() ==> !key_before(#[trigger] s[k], s[first_min_index(s, d)], d),
    decreases s.len(),
{
    lemma_first_min_index_bounds(s, d);
    if s.len() > 1 {
        let p = s.drop_last();
        lemma_first_min_is_min(p, d);
        lemma_first_min_index_bounds(p, d);
        let j = first_min_index(p, d);
        assert(p[j] == s[j]);
        assert forall|k: int| 0 <= k < s.len() implies !key_before(
            #[trigger] s[k],
            s[first_min_index(s, d)],
            d,
        ) by {
            if k < s.len() - 1 {
                assert(s[k] == p[k]);
            }
        }
    }
}

/// Sorting keeps exactly the orders it was given.
pub proof fn lemma_sort_orders_perm(s: Seq<SpotOrder>, d: bool)
    ensures
        sort_orders(s, d).to_multiset() == s.to_multiset(),
        sort_orders(s, d).len() == s.len(),
    decreases s.len(),
{
    broadcast use vstd::multiset::group_multiset_axioms;
    if s.len() > 0 {
        lemma_first_min_index_bounds(s, d);
        let i = first_min_index(s, d);
        let rest = s.remove(i);
        lemma_sort_orders_perm(rest, d);
        let r = sort_orders(s, d);
        assert(r =~= sort_orders(rest, d).insert(0, s[i]));
        vstd::seq_lib::to_multiset_insert(sort_orders(rest, d), 0, s[i]);
        vstd::seq_lib::to_multiset_remove(s, i);
        assert(s.to_multiset().count(s[i]) > 0) by {
            s.to_multiset_ensures();
            assert(s.contains(s[i]));
        }
        assert(s.to_multiset().remove(s[i]).insert(s[i]) =~= s.to_multiset());
    } else {
        assert(sort_orders(s, d) =~= s);
    }
}

proof fn lemma_multiset_contains(a: Seq<SpotOrder>, b: Seq<SpotOrder>, x: SpotOrder)
    requires
        a.to_multiset() == b.to_multiset(),
        a.contains(x),
    ensures
        b.contains(x),
{
    a.to_multiset_ensures();
    b.to_multiset_ensures();
    assert(a.to_multiset().count(x) > 0);
    assert(b.to_multiset().count(x) > 0);
}

/// A sorted queue is in serving order: no order is served before one ahead of it.
pub proof fn lemma_sort_orders_sorted(s: Seq<SpotOrder>, d: bool)
    ensures
        forall|i: int, j: int|
            0 <= i < j < sort_orders(s, d).len() ==> !key_before(
                sort_orders(s, d)[j],
                sort_orders(s, d)[i],
                d,
            ),
    decreases s.len(),
{
    if s.len() > 0 {
        lemma_first_min_index_bounds(s, d);
        lemma_first_min_is_min(s, d);
        let i0 = first_min_index(s, d);
        let rest = s.remove(i0);
        lemma_sort_orders_sorted(rest, d);
        lemma_sort_orders_perm(rest, d);
        let r = sort_orders(s, d);
        let sr = sort_orders(rest, d);
        assert forall|i: int, j: int| 0 <= i < j < r.len() implies !key_before(r[j], r[i], d) by {
            assert(r[j] == sr[j - 1]);
            if i == 0 {
                assert(sr.contains(sr[j - 1]));
                lemma_multiset_contains(sr, rest, sr[j - 1]);
                let k = choose|k: int| 0 <= k < rest.len() && rest[k] == sr[j - 1];
                let k2 = if k < i0 {
                    k
                } else {
                    k + 1
                };
                assert(rest[k] == s[k2]);
            } else {
                assert(r[i] == sr[i - 1]);
            }
        }
    }
}

/// Every id of a queue satisfies `ok`.
pub open spec fn ids_ok(q: Seq<SpotOrder>, ok: spec_fn(Seq<char>) -> bool) -> bool {
    forall|j: int| 0 <= j < q.len() ==> ok(#[trigger] q[j].id@)
}

/// Pairing emits pairs: a buy order then a sell order that it crosses, both with the same
/// amount; the ids marked are the ids of the orders emitted; at most one pair more than the
/// batch asks for is emitted; and every order emitted comes from one of the queues.
pub proof fn lemma_pair_up_shape(
    b: Seq<SpotOrder>,
    s: Seq<SpotOrder>,
    batch: int,
    out_len: int,
    ok: spec_fn(Seq<char>) -> bool,
)
    requires
        ids_ok(b, ok),
        ids_ok(s, ok),
    ensures
        ({
            let r = pair_up(b, s, batch, out_len);
            &&& r.0.len() % 2 == 0
            &&& r.1 == r.0.map_values(|o: SpotOrder| o.id@)
            &&& forall|k: int|
                0 <= k < r.0.len() / 2 ==> (#[trigger] r.0[2 * k]).price >= r.0[2 * k + 1].price
                    && r.0[2 * k].amount == r.0[2 * k + 1].amount
            &&& out_len < batch ==> out_len + r.0.len() < batch + 2
            &&& ids_ok(r.0, ok)
        }),
    decreases b.len() + s.len(),
{
    let r = pair_up(b, s, batch, out_len);
    if b.len() == 0 || s.len() == 0 || out_len >= batch {
        assert(r.1 =~= r.0.map_values(|o: SpotOrder| o.id@));
    } else if b[0].price >= s[0].price {
        let t = if b[0].amount <= s[0].amount {
            b[0].amount
        } else {
            s[0].amount
        };
        let nb = if b[0].amount == t {
            b.drop_first()
        } else {
            b.update(0, with_amount(b[0], (b[0].amount - t) as u128))
        };
        let ns = if s[0].amount == t {
            s.drop_first()
        } else {
            s.update(0, with_amount(s[0], (s[0].amount - t) as u128))
        };
        assert(ids_ok(nb, ok)) by {
            assert forall|j: int| 0 <= j < nb.len() implies ok(#[trigger] nb[j].id@) by {
                if b[0].amount == t {
                    assert(nb[j] == b[j + 1]);
                } else if j > 0 {
                    assert(nb[j] == b[j]);
                } else {
                    assert(nb[j].id == b[0].id);
                }
            }
        }
        assert(ids_ok(ns, ok)) by {
            assert forall|j: int| 0 <= j < ns.len() implies ok(#[trigger] ns[j].id@) by {
                if s[0].amount == t {
                    assert(ns[j] == s[j + 1]);
                } else if j > 0 {
                    assert(ns[j] == s[j]);
                } else {
                    assert(ns[j].id == s[0].id);
                }
            }
        }
        lemma_pair_up_shape(nb, ns, batch, out_len + 2, ok);
        let rest = pair_up(nb, ns, batch, out_len + 2);
        let head = seq![with_amount(b[0], t), with_amount(s[0], t)];
        assert(r.0 == head + rest.0);
        assert(r.1 =~= r.0.map_values(|o: SpotOrder| o.id@)) by {
            assert forall|k: int| 0 <= k < r.1.len() implies r.1[k] == r.0.map_values(
                |o: SpotOrder| o.id@,
            )[k] by {
                if k >= 2 {
                    assert(r.1[k] == rest.1[k - 2]);
                    assert(r.0[k] == rest.0[k - 2]);
                }
            }
        }
        assert forall|k: int| 0 <= k < r.0.len() / 2 implies (#[trigger] r.0[2 * k]).price
            >= r.0[2 * k + 1].price && r.0[2 * k].amount == r.0[2 * k + 1].amount by {
            if k > 0 {
                assert(r.0[2 * k] == rest.0[2 * (k - 1)]);
                assert(r.0[2 * k + 1] == rest.0[2 * (k - 1) + 1]);
            }
        }
        assert forall|j: int| 0 <= j < r.0.len() implies ok(#[trigger] r.0[j].id@) by {
            if j >= 2 {
                assert(r.0[j] == rest.0[j - 2]);
            } else if j == 0 {
                assert(r.0[j].id == b[0].id);
            } else {
                assert(r.0[j].id == s[0].id);
            }
        }
    } else {
        assert(ids_ok(s.drop_first(), ok)) by {
            assert forall|j: int| 0 <= j < s.drop_first().len() implies ok(
                #[trigger] s.drop_first()[j].id@,
            ) by {
                assert(s.drop_first()[j] == s[j + 1]);
            }
        }
        lemma_pair_up_shape(b, s.drop_first(), batch, out_len, ok);
    }
}

/// A batch never serves an order that is already being matched; it is made of crossing
/// buy/sell pairs of equal amounts; the ids it marks are those of the orders it serves; and
/// it holds at most one order more than the batch size.
pub proof fn lemma_batch_not_matching(book: BookState, m: Set<Seq<char>>, batch: int)
    ensures
        ({
            let r = available_batch(book, m, batch);
            &&& forall|k: int| 0 <= k < r.0.len() ==> !m.contains((#[trigger] r.0[k]).id@)
            &&& r.0.len() % 2 == 0
            &&& r.1 == r.0.map_values(|o: SpotOrder| o.id@)
            &&& forall|k: int|
                0 <= k < r.0.len() / 2 ==> (#[trigger] r.0[2 * k]).price >= r.0[2 * k + 1].price
                    && r.0[2 * k].amount == r.0[2 * k + 1].amount
            &&& 0 < batch ==> r.0.len() <= batch + 1
        }),
{
    let ok = |x: Seq<char>| !m.contains(x);
    let p = not_matching(m);
    let fb = orders_of(book.0).filter(p);
    let fs = orders_of(book.1).filter(p);
    assert forall|q: Seq<SpotOrder>, d: bool|
        (forall|j: int| 0 <= j < q.len() ==> p(#[trigger] q[j])) implies ids_ok(
        sort_orders(q, d),
        ok,
    ) by {
        lemma_sort_orders_perm(q, d);
        let sq = sort_orders(q, d);
        assert forall|j: int| 0 <= j < sq.len() implies ok(#[trigger] sq[j].id@) by {
            assert(sq.contains(sq[j]));
            lemma_multiset_contains(sq, q, sq[j]);
            let k = choose|k: int| 0 <= k < q.len() && q[k] == sq[j];
            assert(p(q[k]));
        }
    }
    assert forall|j: int| 0 <= j < fb.len() implies p(#[trigger] fb[j]) by {
        orders_of(book.0).lemma_filter_pred(p, j);
    }
    assert forall|j: int| 0 <= j < fs.len() implies p(#[trigger] fs[j]) by {
        orders_of(book.1).lemma_filter_pred(p, j);
    }
    lemma_pair_up_shape(sort_orders(fb, true), sort_orders(fs, false), batch, 0, ok);
    let r = available_batch(book, m, batch);
    assert forall|k: int| 0 <= k < r.0.len() implies !m.contains((#[trigger] r.0[k]).id@) by {
        assert(ok(r.0[k].id@));
    }
}

} // verus!
