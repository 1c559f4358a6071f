//! Orders of several indexers taken together: all of them, those that enough indexers agree
//! on, and the pairs of crossing orders drawn from them.
use crate::indexer::spot_order::{OrderType, SpotOrder};
use crate::matchers::websocket::with_amount;
use crate::middleware::manager::OrderManager;
use crate::middleware::order_pool::{
    best_buys_of, best_sells_of, lemma_best_buys_same, lemma_best_sells_same, lemma_flatten_same,
    pool_without_ids,
};
use crate::middleware::order_shard::id_views;
use crate::text::str_eq;
use vstd::prelude::*;

verus! {

/// A buy and a sell that cross.
pub type OrderPair = (SpotOrder, SpotOrder);

/// `a` is taken before `b`: for `max`, the higher price, then the later timestamp; otherwise
/// the lower price, then the earlier timestamp.
pub open spec fn heap_before(a: SpotOrder, b: SpotOrder, max: bool) -> bool {
    if max {
        a.price > b.price || (a.price == b.price && a.timestamp > b.timestamp)
    } else {
        a.price < b.price || (a.price == b.price && a.timestamp < b.timestamp)
    }
}

/// Index of the first order that no other order is taken before.
pub open spec fn top_index(s: Seq<SpotOrder>, max: bool) -> int
    decreases s.len(),
{
    if s.len() <= 1 {
        0
    } else {
        let j = top_index(s.drop_last(), max);
        if heap_before(s.last(), s[j], max) {
            s.len() - 1
        } else {
            j
        }
    }
}

/// The first top order is an order of the sequence.
pub proof fn lemma_top_index_bounds(s: Seq<SpotOrder>, max: bool)
    ensures
        s.len() > 0 ==> 0 <= top_index(s, max) < s.len(),
    decreases s.len(),
{
    if s.len() > 1 {
        lemma_top_index_bounds(s.drop_last(), max);
    }
}

/// The pairs drawn from buys `bs` and sells `ss`: the top buy meets the top sell; when they
/// cross they are paired, the smaller amount is filled and the rest of the larger order stays;
/// when they do not, the buy is dropped.
pub open spec fn matches_of(bs: Seq<SpotOrder>, ss: Seq<SpotOrder>) -> Seq<OrderPair>
    decreases bs.len() + ss.len(),
{
    if bs.len() == 0 || ss.len() == 0 {
        Seq::empty()
    } else {
        proof {
            lemma_top_index_bounds(bs, true);
            lemma_top_index_bounds(ss, false);
        }
        let i = top_index(bs, true);
        let j = top_index(ss, false);
        let b = bs[i];
        let s = ss[j];
        if b.price >= s.price {
            if b.amount > s.amount {
                seq![(b, s)] + matches_of(
                    bs.update(i, with_amount(b, (b.amount - s.amount) as u128)),
                    ss.remove(j),
                )
            } else if b.amount < s.amount {
                seq![(b, s)] + matches_of(
                    bs.remove(i),
                    ss.update(j, with_amount(s, (s.amount - b.amount) as u128)),
                )
            } else {
                seq![(b, s)] + matches_of(bs.remove(i), ss.remove(j))
            }
        } else {
            matches_of(bs.remove(i), ss)
        }
    }
}

/// Every pair drawn crosses: the buy's price is at least the sell's.
pub proof fn lemma_matches_cross(bs: Seq<SpotOrder>, ss: Seq<SpotOrder>)
    ensures
        forall|k: int|
            0 <= k < matches_of(bs, ss).len() ==> (#[trigger] matches_of(bs, ss)[k]).0.price
                >= matches_of(bs, ss)[k].1.price,
    decreases bs.len() + ss.len(),
{
    if bs.len() > 0 && ss.len() > 0 {
        lemma_top_index_bounds(bs, true);
        lemma_top_index_bounds(ss, false);
        let i = top_index(bs, true);
        let j = top_index(ss, false);
        let b = bs[i];
        let s = ss[j];
        if b.price >= s.price {
            if b.amount > s.amount {
                lemma_matches_cross(
                    bs.update(i, with_amount(b, (b.amount - s.amount) as u128)),
                    ss.remove(j),
                );
            } else if b.amount < s.amount {
                lemma_matches_cross(
                    bs.remove(i),
                    ss.update(j, with_amount(s, (s.amount - b.amount) as u128)),
                );
            } else {
                lemma_matches_cross(bs.remove(i), ss.remove(j));
            }
        } else {
            lemma_matches_cross(bs.remove(i), ss);
        }
    }
}

/// No two orders of `s` share both price and timestamp.
pub open spec fn keys_distinct(s: Seq<SpotOrder>) -> bool {
    forall|i: int, j: int|
        0 <= i < j < s.len() ==> !(#[trigger] s[i].price == #[trigger] s[j].price && s[i].timestamp
            == s[j].timestamp)
}

/// No order is taken before the first top order.
pub proof fn lemma_top_is_best(s: Seq<SpotOrder>, max: bool)
    requires
        s.len() > 0,
    ensures
        forall|k: int| 0 <= k < s.len() ==> !heap_before(#[trigger] s[k], s[top_index(s, max)], max),
    decreases s.len(),
{
    lemma_top_index_bounds(s, max);
    if s.len() > 1 {
        let p = s.drop_last();
        lemma_top_is_best(p, max);
        lemma_top_index_bounds(p, max);
        assert forall|k: int| 0 <= k < s.len() implies !heap_before(
            #[trigger] s[k],
            s[top_index(s, max)],
            max,
        ) by {
            if k < s.len() - 1 {
                assert(s[k] == p[k]);
            }
            assert(p[top_index(p, max)] == s[top_index(p, max)]);
        }
    }
}

/// Over the same orders with distinct keys, the top order is the same whatever their order.
proof fn lemma_top_same(s1: Seq<SpotOrder>, s2: Seq<SpotOrder>, max: bool)
    requires
        s1.to_multiset() == s2.to_multiset(),
        keys_distinct(s2),
        s1.len() > 0,
    ensures
        s2.len() > 0,
        s1[top_index(s1, max)] == s2[top_index(s2, max)],
{
    broadcast use vstd::seq_lib::to_multiset_contains;
    broadcast use vstd::seq_lib::to_multiset_len;

    vstd::seq_lib::to_multiset_len(s1);
    vstd::seq_lib::to_multiset_len(s2);
    lemma_top_index_bounds(s1, max);
    lemma_top_index_bounds(s2, max);
    lemma_top_is_best(s1, max);
    lemma_top_is_best(s2, max);
    let t1 = top_index(s1, max);
    let t2 = top_index(s2, max);
    let x = s1[t1];
    let y = s2[t2];
    assert(s1.contains(x));
    assert(s2.to_multiset().count(x) > 0);
    let a = choose|a: int| 0 <= a < s2.len() && s2[a] == x;
    assert(s2.contains(y));
    assert(s1.to_multiset().count(y) > 0);
    let b = choose|b: int| 0 <= b < s1.len() && s1[b] == y;
    assert(!heap_before(s1[b], s1[t1], max));
    assert(!heap_before(s2[a], s2[t2], max));
    assert(x.price == y.price && x.timestamp == y.timestamp);
    if a < t2 {
        assert(!(s2[a].price == s2[t2].price && s2[a].timestamp == s2[t2].timestamp));
    } else if t2 < a {
        assert(!(s2[t2].price == s2[a].price && s2[t2].timestamp == s2[a].timestamp));
    }
}

proof fn lemma_keys_distinct_remove(s: Seq<SpotOrder>, i: int)
    requires
        keys_distinct(s),
        0 <= i < s.len(),
    ensures
        keys_distinct(s.remove(i)),
{
    let r = s.remove(i);
    assert forall|a: int, b: int| 0 <= a < b < r.len() implies !(#[trigger] r[a].price
        == #[trigger] r[b].price && r[a].timestamp == r[b].timestamp) by {
        let a0 = if a < i { a } else { a + 1 };
        let b0 = if b < i { b } else { b + 1 };
        assert(r[a] == s[a0] && r[b] == s[b0]);
        assert(!(s[a0].price == s[b0].price && s[a0].timestamp == s[b0].timestamp));
    }
}

proof fn lemma_keys_distinct_update(s: Seq<SpotOrder>, i: int, amount: u128)
    requires
        keys_distinct(s),
        0 <= i < s.len(),
    ensures
        keys_distinct(s.update(i, with_amount(s[i], amount))),
{
    let r = s.update(i, with_amount(s[i], amount));
    assert forall|a: int, b: int| 0 <= a < b < r.len() implies !(#[trigger] r[a].price
        == #[trigger] r[b].price && r[a].timestamp == r[b].timestamp) by {
        assert(!(s[a].price == s[b].price && s[a].timestamp == s[b].timestamp));
    }
}

/// The pairs drawn depend only on which orders are given, not on their order, when no two
/// buys and no two sells share both price and timestamp.
pub proof fn lemma_matches_same_orders(
    bs1: Seq<SpotOrder>,
    ss1: Seq<SpotOrder>,
    bs2: Seq<SpotOrder>,
    ss2: Seq<SpotOrder>,
)
    requires
        bs1.to_multiset() == bs2.to_multiset(),
        ss1.to_multiset() == ss2.to_multiset(),
        keys_distinct(bs1),
        keys_distinct(ss1),
        keys_distinct(bs2),
        keys_distinct(ss2),
    ensures
        matches_of(bs1, ss1) == matches_of(bs2, ss2),
    decreases bs1.len() + ss1.len(),
{
    broadcast use vstd::seq_lib::to_multiset_len;
    broadcast use vstd::seq_lib::to_multiset_remove;
    broadcast use vstd::seq_lib::to_multiset_update;

    vstd::seq_lib::to_multiset_len(bs1);
    vstd::seq_lib::to_multiset_len(bs2);
    vstd::seq_lib::to_multiset_len(ss1);
    vstd::seq_lib::to_multiset_len(ss2);
    if bs1.len() > 0 && ss1.len() > 0 {
        lemma_top_index_bounds(bs1, true);
        lemma_top_index_bounds(ss1, false);
        lemma_top_index_bounds(bs2, true);
        lemma_top_index_bounds(ss2, false);
        lemma_top_same(bs1, bs2, true);
        lemma_top_same(ss1, ss2, false);
        let i1 = top_index(bs1, true);
        let j1 = top_index(ss1, false);
        let i2 = top_index(bs2, true);
        let j2 = top_index(ss2, false);
        let b = bs1[i1];
        let s = ss1[j1];
        assert(bs2[i2] == b && ss2[j2] == s);
        lemma_keys_distinct_remove(bs1, i1);
        lemma_keys_distinct_remove(bs2, i2);
        lemma_keys_distinct_remove(ss1, j1);
        lemma_keys_distinct_remove(ss2, j2);
        if b.price >= s.price {
            if b.amount > s.amount {
                let w = with_amount(b, (b.amount - s.amount) as u128);
                lemma_keys_distinct_update(bs1, i1, (b.amount - s.amount) as u128);
                lemma_keys_distinct_update(bs2, i2, (b.amount - s.amount) as u128);
                lemma_matches_same_orders(bs1.update(i1, w), ss1.remove(j1), bs2.update(i2, w), ss2.remove(j2));
            } else if b.amount < s.amount {
                let w = with_amount(s, (s.amount - b.amount) as u128);
                lemma_keys_distinct_update(ss1, j1, (s.amount - b.amount) as u128);
                lemma_keys_distinct_update(ss2, j2, (s.amount - b.amount) as u128);
                lemma_matches_same_orders(bs1.remove(i1), ss1.update(j1, w), bs2.remove(i2), ss2.update(j2, w));
            } else {
                lemma_matches_same_orders(bs1.remove(i1), ss1.remove(j1), bs2.remove(i2), ss2.remove(j2));
            }
        } else {
            lemma_matches_same_orders(bs1.remove(i1), ss1, bs2.remove(i2), ss2);
        }
    }
}

fn top_order(v: &Vec<SpotOrder>, max: bool) -> (r: usize)
    requires
        v@.len() > 0,
    ensures
        r == top_index(v@, max),
        r < v@.len(),
{
    let n = v.len();
    let mut best: usize = 0;
    let mut j: usize = 1;
    assert(v@.take(1).len() == 1);
    while j < n
        invariant
            n == v@.len(),
            1 <= j <= n,
            best < j,
            best == top_index(v@.take(j as int), max),
        decreases n - j,
    {
        assert(v@.take(j + 1).drop_last() =~= v@.take(j as int));
        assert(v@.take(j + 1)[best as int] == v@[best as int]);
        let a = &v[j];
        let b = &v[best];
        let before = if max {
            a.price > b.price || (a.price == b.price && a.timestamp > b.timestamp)
        } else {
            a.price < b.price || (a.price == b.price && a.timestamp < b.timestamp)
        };
        if before {
            best = j;
        }
        j = j + 1;
    }
    assert(v@.take(n as int) =~= v@);
    best
}

/// The pairs drawn from `buys` and `sells`: the highest buy meets the lowest sell, again and
/// again, until a side runs out.
pub fn match_orders(buys: Vec<SpotOrder>, sells: Vec<SpotOrder>) -> (r: Vec<OrderPair>)
    ensures
        r@ == matches_of(buys@, sells@),
{
    let ghost b0 = buys@;
    let ghost s0 = sells@;
    let mut buy_queue = buys;
    let mut sell_queue = sells;
    let mut matches: Vec<OrderPair> = Vec::new();
    while buy_queue.len() > 0 && sell_queue.len() > 0
        invariant
            matches_of(b0, s0) == matches@ + matches_of(buy_queue@, sell_queue@),
        decreases buy_queue@.len() + sell_queue@.len(),
    {
        let ghost bq = buy_queue@;
        let ghost sq = sell_queue@;
        let ghost done = matches@;
        let i = top_order(&buy_queue, true);
        let j = top_order(&sell_queue, false);
        let mut buy_order = buy_queue.remove(i);
        let mut sell_order = sell_queue.remove(j);
        if buy_order.price >= sell_order.price {
            matches.push((buy_order.clone(), sell_order.clone()));
            if buy_order.amount > sell_order.amount {
                buy_order.amount = buy_order.amount - sell_order.amount;
                buy_queue.insert(i, buy_order);
                assert(buy_queue@ =~= bq.update(
                    i as int,
                    with_amount(bq[i as int], (bq[i as int].amount - sq[j as int].amount) as u128),
                ));
            } else if buy_order.amount < sell_order.amount {
                sell_order.amount = sell_order.amount - buy_order.amount;
                sell_queue.insert(j, sell_order);
                assert(sell_queue@ =~= sq.update(
                    j as int,
                    with_amount(sq[j as int], (sq[j as int].amount - bq[i as int].amount) as u128),
                ));
            }
            assert(matches@ =~= done + seq![(bq[i as int], sq[j as int])]);
        } else {
            sell_queue.insert(j, sell_order);
            assert(sell_queue@ =~= sq);
        }
        assert(done + matches_of(bq, sq) =~= matches@ + matches_of(buy_queue@, sell_queue@));
    }
    assert(matches@ + matches_of(buy_queue@, sell_queue@) =~= matches@);
    matches
}

/// The pairs `ms` cut into batches of `size`, the last one possibly shorter; with a size of
/// zero, one batch of everything. No batch is empty.
pub open spec fn batches_of(ms: Seq<OrderPair>, size: int) -> Seq<Seq<OrderPair>>
    decreases ms.len(),
{
    if ms.len() == 0 {
        Seq::empty()
    } else if size <= 0 || ms.len() <= size {
        seq![ms]
    } else {
        seq![ms.take(size)] + batches_of(ms.skip(size), size)
    }
}

/// The batches hold the pairs, in order: put back together they give `ms`.
pub proof fn lemma_batches_flatten(ms: Seq<OrderPair>, size: int)
    ensures
        batches_of(ms, size).flatten() == ms,
    decreases ms.len(),
{
    if ms.len() == 0 {
    } else if size <= 0 || ms.len() <= size {
        seq![ms].lemma_flatten_one_element();
    } else {
        lemma_batches_flatten(ms.skip(size), size);
        let b = batches_of(ms, size);
        assert(b.drop_first() =~= batches_of(ms.skip(size), size));
        assert(ms.take(size) + ms.skip(size) =~= ms);
    }
}

/// Every batch holds between one and `size` pairs; all but the last hold exactly `size`.
pub proof fn lemma_batches_sizes(ms: Seq<OrderPair>, size: int)
    requires
        size > 0,
    ensures
        forall|k: int|
            0 <= k < batches_of(ms, size).len() ==> 0 < (#[trigger] batches_of(ms, size)[k]).len()
                <= size,
        forall|k: int|
            0 <= k < batches_of(ms, size).len() - 1 ==> (#[trigger] batches_of(ms, size)[k]).len()
                == size,
    decreases ms.len(),
{
    if ms.len() > size {
        lemma_batches_sizes(ms.skip(size), size);
        let b = batches_of(ms, size);
        assert forall|k: int| 0 < k < b.len() implies b[k] == batches_of(ms.skip(size), size)[k - 1] by {}
    }
}

fn clone_pair(p: &OrderPair) -> (r: OrderPair)
    ensures
        r == *p,
{
    (p.0.clone(), p.1.clone())
}

/// Cuts the pairs into batches of `batch_size`, the last one possibly shorter.
pub fn batch_matches(matches: Vec<OrderPair>, batch_size: usize) -> (r: Vec<Vec<OrderPair>>)
    ensures
        r@.map_values(|b: Vec<OrderPair>| b@) == batches_of(matches@, batch_size as int),
{
    let ghost all = matches@;
    let mut batches: Vec<Vec<OrderPair>> = Vec::new();
    let mut current: Vec<OrderPair> = Vec::new();
    let n = matches.len();
    let mut k: usize = 0;
    proof {
        assert(all.skip(0) =~= all);
        assert(batches@.map_values(|b: Vec<OrderPair>| b@) =~= Seq::<Seq<OrderPair>>::empty());
    }
    while k < n
        invariant
            n == all.len(),
            all == matches@,
            k <= n,
            batch_size > 0 ==> current@.len() < batch_size,
            current@ == all.subrange(k - current@.len(), k as int),
            current@.len() <= k,
            batches@.map_values(|b: Vec<OrderPair>| b@) + batches_of(all.skip(k - current@.len()), batch_size as int)
                == batches_of(all, batch_size as int),
        decreases n - k,
    {
        let ghost start = k - current@.len();
        current.push(clone_pair(&matches[k]));
        k = k + 1;
        assert(current@ =~= all.subrange(start, k as int));
        if current.len() == batch_size {
            let ghost full = current@;
            let ghost rest = all.skip(start);
            assert(rest.take(batch_size as int) =~= full);
            assert(rest.skip(batch_size as int) =~= all.skip(k as int));
            proof {
                if rest.len() > batch_size {
                    assert(batches_of(rest, batch_size as int) == seq![full] + batches_of(
                        all.skip(k as int),
                        batch_size as int,
                    ));
                } else {
                    assert(all.skip(k as int).len() == 0);
                    assert(batches_of(rest, batch_size as int) == seq![full]);
                    assert(seq![full] =~= seq![full] + batches_of(all.skip(k as int), batch_size as int));
                }
            }
            let ghost before = batches@.map_values(|b: Vec<OrderPair>| b@);
            batches.push(current);
            current = Vec::new();
            assert(batches@.map_values(|b: Vec<OrderPair>| b@) =~= before.push(full));
            assert(before.push(full) + batches_of(all.skip(k as int), batch_size as int) =~= before
                + batches_of(rest, batch_size as int));
        }
    }
    let ghost start = n - current@.len();
    if current.len() > 0 {
        let ghost rest = all.skip(start);
        assert(rest =~= current@);
        assert(batches_of(rest, batch_size as int) == seq![current@]);
        let ghost before = batches@.map_values(|b: Vec<OrderPair>| b@);
        let ghost last = current@;
        batches.push(current);
        assert(batches@.map_values(|b: Vec<OrderPair>| b@) =~= before.push(last));
        assert(before.push(last) =~= before + batches_of(rest, batch_size as int));
    } else {
        assert(all.skip(start).len() == 0);
        assert(batches@.map_values(|b: Vec<OrderPair>| b@) =~= batches@.map_values(|b: Vec<OrderPair>| b@) + batches_of(all.skip(start), batch_size as int));
    }
    batches
}

/// The ids of `l`, each once, in the order they first occur.
pub open spec fn distinct_ids(l: Seq<SpotOrder>) -> Seq<Seq<char>>
    decreases l.len(),
{
    if l.len() == 0 {
        Seq::empty()
    } else {
        let p = distinct_ids(l.drop_last());
        if p.contains(l.last().id@) {
            p
        } else {
            p.push(l.last().id@)
        }
    }
}

/// How many orders of `l` carry the id `id`.
pub open spec fn id_count(l: Seq<SpotOrder>, id: Seq<char>) -> nat
    decreases l.len(),
{
    if l.len() == 0 {
        0
    } else {
        id_count(l.drop_last(), id) + if l.last().id@ == id {
            1nat
        } else {
            0nat
        }
    }
}

/// The last order of `l` with the id `id`.
pub open spec fn last_with_id(l: Seq<SpotOrder>, id: Seq<char>) -> SpotOrder
    decreases l.len(),
{
    if l.len() == 0 {
        arbitrary()
    } else if l.last().id@ == id {
        l.last()
    } else {
        last_with_id(l.drop_last(), id)
    }
}

/// An id that at least two orders of `l` carry.
pub open spec fn agreed(l: Seq<SpotOrder>) -> spec_fn(Seq<char>) -> bool {
    |id: Seq<char>| id_count(l, id) >= 2
}

/// For each id that at least two orders of `l` carry, in the order ids first occur, the
/// last order with that id.
pub open spec fn consensus_of(l: Seq<SpotOrder>) -> Seq<SpotOrder> {
    distinct_ids(l).filter(agreed(l)).map_values(|id: Seq<char>| last_with_id(l, id))
}

proof fn lemma_last_with_id(l: Seq<SpotOrder>, id: Seq<char>)
    requires
        id_count(l, id) > 0,
    ensures
        last_with_id(l, id).id@ == id,
        l.contains(last_with_id(l, id)),
    decreases l.len(),
{
    if l.last().id@ != id {
        lemma_last_with_id(l.drop_last(), id);
        let x = last_with_id(l.drop_last(), id);
        let i = choose|i: int| 0 <= i < l.drop_last().len() && l.drop_last()[i] == x;
        assert(l[i] == x);
    } else {
        assert(l[l.len() - 1] == l.last());
    }
}

proof fn lemma_filter_no_duplicates(s: Seq<Seq<char>>, p: spec_fn(Seq<char>) -> bool)
    requires
        s.no_duplicates(),
    ensures
        s.filter(p).no_duplicates(),
        forall|x: Seq<char>| #[trigger] s.filter(p).contains(x) ==> s.contains(x),
    decreases s.len(),
{
    reveal(Seq::filter);
    if s.len() > 0 {
        let r = s.drop_last();
        assert(r.no_duplicates()) by {
            assert forall|i: int, j: int| 0 <= i < r.len() && 0 <= j < r.len() && i != j implies r[i]
                != r[j] by {
                assert(r[i] == s[i] && r[j] == s[j]);
            }
        }
        lemma_filter_no_duplicates(r, p);
        let rf = r.filter(p);
        assert(s.filter(p) == if p(s.last()) {
            rf.push(s.last())
        } else {
            rf
        });
        assert forall|x: Seq<char>| #[trigger] s.filter(p).contains(x) implies s.contains(x) by {
            if rf.contains(x) {
                assert(r.contains(x));
                let i = choose|i: int| 0 <= i < r.len() && r[i] == x;
                assert(s[i] == x);
            } else {
                let q = s.filter(p);
                let i = choose|i: int| 0 <= i < q.len() && q[i] == x;
                if i < rf.len() {
                    assert(rf[i] == x);
                    assert(rf.contains(x));
                }
                assert(x == s.last());
                assert(s[s.len() - 1] == x);
            }
        }
        if p(s.last()) {
            assert(!rf.contains(s.last())) by {
                if rf.contains(s.last()) {
                    let i = choose|i: int| 0 <= i < r.len() && r[i] == s.last();
                    assert(s[i] == s[s.len() - 1]);
                }
            }
            let q = rf.push(s.last());
            assert forall|i: int, j: int| 0 <= i < q.len() && 0 <= j < q.len() && i != j implies q[i]
                != q[j] by {
                if i < rf.len() && j < rf.len() {
                } else if i < rf.len() {
                    assert(rf.contains(q[i]));
                } else {
                    assert(rf.contains(q[j]));
                }
            }
        }
    }
}

/// The orders agreed on are orders of the list, each carrying an id that at least two of
/// the list's orders carry, and no two of them carry the same id.
pub proof fn lemma_consensus_agreed(l: Seq<SpotOrder>)
    ensures
        forall|i: int|
            0 <= i < consensus_of(l).len() ==> id_count(l, (#[trigger] consensus_of(l)[i]).id@) >= 2
                && l.contains(consensus_of(l)[i]),
        forall|i: int, j: int|
            0 <= i < j < consensus_of(l).len() ==> consensus_of(l)[i].id@ != consensus_of(l)[j].id@,
{
    broadcast use vstd::seq_lib::group_filter_ensures;

    let d = distinct_ids(l);
    let f = d.filter(agreed(l));
    lemma_distinct_ids_props(l);
    assert forall|i: int| 0 <= i < f.len() implies id_count(l, #[trigger] f[i]) >= 2 by {
        d.lemma_filter_pred(agreed(l), i);
    }
    assert forall|i: int| 0 <= i < consensus_of(l).len() implies id_count(
        l,
        (#[trigger] consensus_of(l)[i]).id@,
    ) >= 2 && l.contains(consensus_of(l)[i]) by {
        assert(id_count(l, f[i]) >= 2);
        lemma_last_with_id(l, f[i]);
    }
    lemma_filter_no_duplicates(d, agreed(l));
    assert forall|i: int, j: int| 0 <= i < j < consensus_of(l).len() implies consensus_of(l)[i].id@
        != consensus_of(l)[j].id@ by {
        assert(id_count(l, f[i]) >= 2);
        assert(id_count(l, f[j]) >= 2);
        lemma_last_with_id(l, f[i]);
        lemma_last_with_id(l, f[j]);
    }
}

/// An id carried at two places of `l` is counted at least twice.
proof fn lemma_two_carriers(l: Seq<SpotOrder>, i: int, j: int)
    requires
        0 <= i < j < l.len(),
        l[i].id@ == l[j].id@,
    ensures
        id_count(l, l[i].id@) >= 2,
    decreases l.len(),
{
    let id = l[i].id@;
    if j < l.len() - 1 {
        assert(l.drop_last()[i] == l[i] && l.drop_last()[j] == l[j]);
        lemma_two_carriers(l.drop_last(), i, j);
    } else {
        lemma_one_carrier(l.drop_last(), i, id);
    }
}

proof fn lemma_one_carrier(l: Seq<SpotOrder>, i: int, id: Seq<char>)
    requires
        0 <= i < l.len(),
        l[i].id@ == id,
    ensures
        id_count(l, id) >= 1,
    decreases l.len(),
{
    if i < l.len() - 1 {
        assert(l.drop_last()[i] == l[i]);
        lemma_one_carrier(l.drop_last(), i, id);
    }
}

/// Consensus is complete: when two of the reported orders carry the same id, the result
/// holds an order with that id, one of the reported orders.
pub proof fn lemma_consensus_complete(l: Seq<SpotOrder>, i: int, j: int)
    requires
        0 <= i < j < l.len(),
        l[i].id@ == l[j].id@,
    ensures
        exists|k: int|
            0 <= k < consensus_of(l).len() && (#[trigger] consensus_of(l)[k]).id@ == l[i].id@
                && l.contains(consensus_of(l)[k]),
{
    broadcast use vstd::seq_lib::group_filter_ensures;

    let id = l[i].id@;
    lemma_two_carriers(l, i, j);
    lemma_distinct_ids_props(l);
    let d = distinct_ids(l);
    assert(d.contains(id));
    let a = choose|a: int| 0 <= a < d.len() && d[a] == id;
    assert(agreed(l)(d[a]));
    d.lemma_filter_contains(agreed(l), a);
    let f = d.filter(agreed(l));
    let k = choose|k: int| 0 <= k < f.len() && f[k] == id;
    lemma_last_with_id(l, id);
    assert(consensus_of(l)[k] == last_with_id(l, id));
}

/// No id occurs more than 255 times in `l`.
pub open spec fn counts_fit(l: Seq<SpotOrder>) -> bool {
    forall|id: Seq<char>| #[trigger] id_count(l, id) <= 255
}

proof fn lemma_distinct_ids_props(l: Seq<SpotOrder>)
    ensures
        distinct_ids(l).no_duplicates(),
        forall|id: Seq<char>| distinct_ids(l).contains(id) <==> id_count(l, id) > 0,
    decreases l.len(),
{
    if l.len() > 0 {
        lemma_distinct_ids_props(l.drop_last());
        let p = distinct_ids(l.drop_last());
        let x = l.last().id@;
        if !p.contains(x) {
            let q = p.push(x);
            assert forall|id: Seq<char>| q.contains(id) <==> (p.contains(id) || id == x) by {
                if id == x {
                    assert(q[p.len() as int] == x);
                }
                if p.contains(id) {
                    let i = choose|i: int| 0 <= i < p.len() && p[i] == id;
                    assert(q[i] == id);
                }
                if q.contains(id) {
                    let i = choose|i: int| 0 <= i < q.len() && q[i] == id;
                    if i < p.len() {
                        assert(p[i] == id);
                    }
                }
            }
            assert forall|i: int, j: int| 0 <= i < q.len() && 0 <= j < q.len() && i != j implies q[i]
                != q[j] by {
                if i < p.len() && j < p.len() {
                } else if i < p.len() {
                    assert(p.contains(q[i]));
                } else {
                    assert(p.contains(q[j]));
                }
            }
        }
    }
}

proof fn lemma_id_count_prefix(l: Seq<SpotOrder>, k: int, id: Seq<char>)
    requires
        0 <= k <= l.len(),
    ensures
        id_count(l.take(k), id) <= id_count(l, id),
    decreases l.len() - k,
{
    if k < l.len() {
        lemma_id_count_prefix(l, k + 1, id);
        assert(l.take(k + 1).drop_last() =~= l.take(k));
    } else {
        assert(l.take(k) =~= l);
    }
}

fn position_of(ids: &Vec<String>, id: &str) -> (r: Option<usize>)
    ensures
        match r {
            Some(j) => j < ids@.len() && ids@[j as int]@ == id@,
            None => forall|j: int| 0 <= j < ids@.len() ==> (#[trigger] ids@[j])@ != id@,
        },
{
    let n = ids.len();
    let mut j: usize = 0;
    while j < n
        invariant
            n == ids@.len(),
            j <= n,
            forall|i: int| 0 <= i < j ==> (#[trigger] ids@[i])@ != id@,
        decreases n - j,
    {
        if str_eq(ids[j].as_str(), id) {
            return Some(j);
        }
        j = j + 1;
    }
    None
}

/// The views of some strings.
pub open spec fn views_of(v: Seq<String>) -> Seq<Seq<char>> {
    v.map_values(|s: String| s@)
}

/// For each id that at least two orders of `orders` carry, in the order ids first occur,
/// the last order with that id.
#[verifier::spinoff_prover]
pub fn orders_with_consensus(orders: Vec<SpotOrder>) -> (r: Vec<SpotOrder>)
    requires
        counts_fit(orders@),
    ensures
        r@ == consensus_of(orders@),
{
    let ghost l = orders@;
    let mut ids: Vec<String> = Vec::new();
    let mut counts: Vec<u8> = Vec::new();
    let mut latest: Vec<SpotOrder> = Vec::new();
    let n = orders.len();
    let mut k: usize = 0;
    assert(l.take(0) =~= Seq::<SpotOrder>::empty());
    while k < n
        invariant
            n == l.len(),
            l == orders@,
            k <= n,
            counts_fit(l),
            views_of(ids@) == distinct_ids(l.take(k as int)),
            counts@.len() == ids@.len(),
            latest@.len() == ids@.len(),
            forall|j: int|
                0 <= j < ids@.len() ==> #[trigger] counts@[j] == id_count(l.take(k as int), ids@[j]@)
                    && latest@[j] == last_with_id(l.take(k as int), ids@[j]@),
        decreases n - k,
    {
        let ghost pre = l.take(k as int);
        let ghost cur = l.take(k + 1);
        assert(cur.drop_last() =~= pre);
        assert(cur.last() == l[k as int]);
        let order = &orders[k];
        proof {
            lemma_distinct_ids_props(pre);
        }
        match position_of(&ids, order.id.as_str()) {
            Some(j) => {
                proof {
                    lemma_id_count_prefix(l, k + 1, order.id@);
                    assert(id_count(l, order.id@) <= 255);
                }
                proof {
                    assert(ids@[j as int]@ == order.id@);
                    assert(id_count(cur, order.id@) == id_count(pre, order.id@) + 1);
                }
                let c = counts[j];
                counts.set(j, c + 1);
                latest.set(j, order.clone());
                proof {
                    assert(views_of(ids@)[j as int] == ids@[j as int]@);
                    assert(distinct_ids(pre).contains(order.id@));
                    assert forall|i: int| 0 <= i < ids@.len() implies #[trigger] counts@[i] == id_count(
                        cur,
                        ids@[i]@,
                    ) && latest@[i] == last_with_id(cur, ids@[i]@) by {
                        if i != j {
                            assert(views_of(ids@)[i] == ids@[i]@);
                            assert(distinct_ids(pre)[i] != distinct_ids(pre)[j as int]);
                        }
                    }
                }
            },
            None => {
                proof {
                    assert forall|i: int| 0 <= i < distinct_ids(pre).len() implies distinct_ids(pre)[i]
                        != order.id@ by {
                        assert(views_of(ids@)[i] == ids@[i]@);
                    }
                    assert(!distinct_ids(pre).contains(order.id@));
                    assert(id_count(pre, order.id@) == 0);
                }
                let ghost old_counts = counts@;
                let ghost old_latest = latest@;
                let ghost old_ids = ids@;
                ids.push(order.id.clone());
                counts.push(1);
                latest.push(order.clone());
                proof {
                    let last = ids@.len() - 1;
                    assert(ids@[last]@ == order.id@);
                    assert(id_count(cur, order.id@) == 1);
                    assert(last_with_id(cur, order.id@) == l[k as int]);
                    assert forall|i: int| 0 <= i < last implies ids@[i] == old_ids[i] && counts@[i]
                        == old_counts[i] && latest@[i] == old_latest[i] by {}
                    assert(views_of(ids@) =~= distinct_ids(cur));
                    assert forall|i: int| 0 <= i < ids@.len() implies #[trigger] counts@[i] == id_count(
                        cur,
                        ids@[i]@,
                    ) && latest@[i] == last_with_id(cur, ids@[i]@) by {
                        if i < ids@.len() - 1 {
                            assert(views_of(ids@)[i] == ids@[i]@);
                            assert(distinct_ids(pre)[i] != order.id@);
                        }
                    }
                }
            },
        }
        k = k + 1;
    }
    assert(l.take(n as int) =~= l);
    assert(views_of(ids@) == distinct_ids(l));
    assert forall|i: int| 0 <= i < ids@.len() implies #[trigger] counts@[i] == id_count(l, ids@[i]@)
        && latest@[i] == last_with_id(l, ids@[i]@) by {
        assert(counts@[i] == id_count(l.take(n as int), ids@[i]@));
    }
    let mut r: Vec<SpotOrder> = Vec::new();
    let m = ids.len();
    let mut j: usize = 0;
    let ghost dl = distinct_ids(l);
    assert(dl.take(0) =~= Seq::<Seq<char>>::empty());
    while j < m
        invariant
            m == ids@.len(),
            j <= m,
            views_of(ids@) == dl,
            dl == distinct_ids(l),
            counts@.len() == m,
            latest@.len() == m,
            forall|i: int|
                0 <= i < m ==> #[trigger] counts@[i] == id_count(l, ids@[i]@) && latest@[i]
                    == last_with_id(l, ids@[i]@),
            r@ == dl.take(j as int).filter(agreed(l)).map_values(|id: Seq<char>| last_with_id(l, id)),
        decreases m - j,
    {
        proof {
            reveal(Seq::filter);
            assert(dl.take(j + 1).drop_last() =~= dl.take(j as int));
            assert(dl[j as int] == ids@[j as int]@);
        }
        if counts[j] >= 2 {
            r.push(latest[j].clone());
        }
        proof {
            let f = dl.take(j as int).filter(agreed(l));
            let g = dl.take(j + 1).filter(agreed(l));
            if counts@[j as int] >= 2 {
                assert(g == f.push(dl[j as int]));
                assert(r@ =~= g.map_values(|id: Seq<char>| last_with_id(l, id)));
            } else {
                assert(g == f);
            }
        }
        j = j + 1;
    }
    assert(dl.take(m as int) =~= dl);
    r
}

/// `name` is among the names `active`.
pub open spec fn is_active(active: Seq<String>, name: Seq<char>) -> bool {
    views_of(active).contains(name)
}

/// `r` is what manager `m` reports of one side: its buys highest first, or its sells lowest
/// first.
pub open spec fn reported(m: OrderManager, t: OrderType, r: Seq<SpotOrder>) -> bool {
    match t {
        OrderType::Buy => best_buys_of(m.shards(), r),
        OrderType::Sell => best_sells_of(m.shards(), r),
    }
}

/// The order managers of the indexers, by name, and the names of the indexers taken into
/// account.
pub struct Aggregator {
    pub order_managers: Vec<(String, OrderManager)>,
    pub active_indexers: Vec<String>,
}

/// Two reports of one side of the same managers hold the same orders.
proof fn lemma_reports_same(agg: Aggregator, t: OrderType, rs1: Seq<Seq<SpotOrder>>, rs2: Seq<Seq<SpotOrder>>)
    requires
        agg.reports(t, rs1),
        agg.reports(t, rs2),
    ensures
        rs1.flatten().to_multiset() == rs2.flatten().to_multiset(),
{
    assert forall|j: int| 0 <= j < rs1.len() implies #[trigger] rs1[j].to_multiset() == rs2[j].to_multiset() by {
        let m = agg.order_managers@[j];
        if is_active(agg.active_indexers@, m.0@) {
            match t {
                OrderType::Buy => lemma_best_buys_same(m.1.shards(), rs1[j], rs2[j]),
                OrderType::Sell => lemma_best_sells_same(m.1.shards(), rs1[j], rs2[j]),
            }
        } else {
            assert(rs1[j] =~= rs2[j]);
        }
    }
    lemma_flatten_same(rs1, rs2);
}

/// Two reads of the same managers draw the same pairs. When no two reported buys share both
/// price and timestamp, nor two reported sells, the pairs drawn from any report of both sides
/// are those drawn from any other, and cut into batches of any size, then put back together,
/// they are those pairs again, in the same order.
pub proof fn lemma_batches_match_pairs(
    agg: Aggregator,
    bs1: Seq<Seq<SpotOrder>>,
    ss1: Seq<Seq<SpotOrder>>,
    bs2: Seq<Seq<SpotOrder>>,
    ss2: Seq<Seq<SpotOrder>>,
    size: int,
)
    requires
        agg.both_reports(bs1, ss1),
        agg.both_reports(bs2, ss2),
        keys_distinct(bs1.flatten()),
        keys_distinct(ss1.flatten()),
        keys_distinct(bs2.flatten()),
        keys_distinct(ss2.flatten()),
    ensures
        matches_of(bs1.flatten(), ss1.flatten()) == matches_of(bs2.flatten(), ss2.flatten()),
        batches_of(matches_of(bs1.flatten(), ss1.flatten()), size).flatten() == matches_of(
            bs2.flatten(),
            ss2.flatten(),
        ),
{
    lemma_reports_same(agg, OrderType::Buy, bs1, bs2);
    lemma_reports_same(agg, OrderType::Sell, ss1, ss2);
    lemma_matches_same_orders(bs1.flatten(), ss1.flatten(), bs2.flatten(), ss2.flatten());
    lemma_batches_flatten(matches_of(bs1.flatten(), ss1.flatten()), size);
}

impl Aggregator {
    /// Every manager's pool is well formed.
    pub open spec fn wf(&self) -> bool {
        forall|j: int|
            0 <= j < self.order_managers@.len() ==> (#[trigger] self.order_managers@[j]).1.wf()
    }

    /// `rs` holds, manager by manager, what each active one reports of side `t`, and nothing
    /// for the others.
    pub open spec fn reports(&self, t: OrderType, rs: Seq<Seq<SpotOrder>>) -> bool {
        &&& rs.len() == self.order_managers@.len()
        &&& forall|j: int|
            0 <= j < rs.len() ==> if is_active(self.active_indexers@, self.order_managers@[j].0@) {
                reported(self.order_managers@[j].1, t, #[trigger] rs[j])
            } else {
                rs[j].len() == 0
            }
    }

    /// `b` and `s` are what manager `i` reports of each side, or nothing when it is not
    /// active.
    pub open spec fn reports_at(&self, i: int, b: Seq<SpotOrder>, s: Seq<SpotOrder>) -> bool {
        if is_active(self.active_indexers@, self.order_managers@[i].0@) {
            reported(self.order_managers@[i].1, OrderType::Buy, b) && reported(
                self.order_managers@[i].1,
                OrderType::Sell,
                s,
            )
        } else {
            b.len() == 0 && s.len() == 0
        }
    }

    /// Reports of both sides.
    pub open spec fn both_reports(&self, bs: Seq<Seq<SpotOrder>>, ss: Seq<Seq<SpotOrder>>) -> bool {
        self.reports(OrderType::Buy, bs) && self.reports(OrderType::Sell, ss)
    }

    /// An aggregator over `order_managers`, taking into account the indexers named in
    /// `active_indexers`.
    pub fn new(order_managers: Vec<(String, OrderManager)>, active_indexers: Vec<String>) -> (r: Self)
        ensures
            r.order_managers@ == order_managers@,
            r.active_indexers@ == active_indexers@,
    {
        Self { order_managers, active_indexers }
    }

    fn is_active_indexer(&self, name: &str) -> (r: bool)
        ensures
            r == is_active(self.active_indexers@, name@),
    {
        let n = self.active_indexers.len();
        let mut j: usize = 0;
        while j < n
            invariant
                n == self.active_indexers@.len(),
                j <= n,
                forall|i: int| 0 <= i < j ==> (#[trigger] self.active_indexers@[i])@ != name@,
            decreases n - j,
        {
            if str_eq(self.active_indexers[j].as_str(), name) {
                proof {
                    assert(views_of(self.active_indexers@)[j as int] == name@);
                }
                return true;
            }
            j = j + 1;
        }
        proof {
            assert forall|i: int| 0 <= i < views_of(self.active_indexers@).len() implies views_of(
                self.active_indexers@,
            )[i] != name@ by {
                assert(views_of(self.active_indexers@)[i] == self.active_indexers@[i]@);
            }
        }
        false
    }

    fn side_of_manager(&self, j: usize, order_type: OrderType) -> (r: Vec<SpotOrder>)
        requires
            self.wf(),
            j < self.order_managers@.len(),
        ensures
            reported(self.order_managers@[j as int].1, order_type, r@),
    {
        let manager = &self.order_managers[j].1;
        match order_type {
            OrderType::Buy => manager.get_all_buy_orders(),
            OrderType::Sell => manager.get_all_sell_orders(),
        }
    }

    /// What the active managers report of side `order_type`, manager after manager.
    fn get_all_orders(&self, order_type: OrderType) -> (r: Vec<SpotOrder>)
        requires
            self.wf(),
        ensures
            exists|rs: Seq<Seq<SpotOrder>>| #[trigger] self.reports(order_type, rs) && r@ == rs.flatten(),
    {
        let mut aggregated_orders: Vec<SpotOrder> = Vec::new();
        let ghost mut rs: Seq<Seq<SpotOrder>> = Seq::empty();
        let n = self.order_managers.len();
        let mut j: usize = 0;
        while j < n
            invariant
                n == self.order_managers@.len(),
                j <= n,
                self.wf(),
                rs.len() == j,
                forall|i: int|
                    0 <= i < j ==> if is_active(self.active_indexers@, self.order_managers@[i].0@) {
                        reported(self.order_managers@[i].1, order_type, #[trigger] rs[i])
                    } else {
                        rs[i].len() == 0
                    },
                aggregated_orders@ == rs.flatten_alt(),
            decreases n - j,
        {
            let ghost prev = rs;
            if self.is_active_indexer(self.order_managers[j].0.as_str()) {
                let mut orders = self.side_of_manager(j, order_type);
                proof {
                    rs = rs.push(orders@);
                    assert(rs.drop_last() =~= prev);
                }
                aggregated_orders.append(&mut orders);
            } else {
                proof {
                    rs = rs.push(Seq::empty());
                    assert(rs.drop_last() =~= prev);
                    assert(aggregated_orders@ =~= rs.flatten_alt());
                }
            }
            j = j + 1;
        }
        proof {
            rs.lemma_flatten_and_flatten_alt_are_equivalent();
            assert(self.reports(order_type, rs));
        }
        aggregated_orders
    }

    /// What the active managers report of both sides: manager after manager, its buys then
    /// its sells.
    fn get_all_orders_without_type(&self) -> (r: Vec<SpotOrder>)
        requires
            self.wf(),
        ensures
            exists|bs: Seq<Seq<SpotOrder>>, ss: Seq<Seq<SpotOrder>>|
                #[trigger] self.both_reports(bs, ss) && r@ == Seq::new(
                    bs.len(),
                    |j: int| bs[j] + ss[j],
                ).flatten(),
    {
        let mut aggregated_orders: Vec<SpotOrder> = Vec::new();
        let ghost mut bs: Seq<Seq<SpotOrder>> = Seq::empty();
        let ghost mut ss: Seq<Seq<SpotOrder>> = Seq::empty();
        let n = self.order_managers.len();
        let mut j: usize = 0;
        while j < n
            invariant
                n == self.order_managers@.len(),
                j <= n,
                self.wf(),
                bs.len() == j,
                ss.len() == j,
                forall|i: int| 0 <= i < j ==> self.reports_at(i, #[trigger] bs[i], ss[i]),
                aggregated_orders@ == Seq::new(j as nat, |i: int| bs[i] + ss[i]).flatten_alt(),
            decreases n - j,
        {
            let ghost pb = bs;
            let ghost ps = ss;
            let ghost before = Seq::new(j as nat, |i: int| bs[i] + ss[i]);
            if self.is_active_indexer(self.order_managers[j].0.as_str()) {
                let mut orders_buy = self.side_of_manager(j, OrderType::Buy);
                let mut orders_sell = self.side_of_manager(j, OrderType::Sell);
                proof {
                    bs = bs.push(orders_buy@);
                    ss = ss.push(orders_sell@);
                }
                aggregated_orders.append(&mut orders_buy);
                aggregated_orders.append(&mut orders_sell);
            } else {
                proof {
                    bs = bs.push(Seq::empty());
                    ss = ss.push(Seq::empty());
                }
            }
            proof {
                assert forall|i: int| 0 <= i < j + 1 implies self.reports_at(i, #[trigger] bs[i], ss[i]) by {
                    if i < j {
                        assert(bs[i] == pb[i]);
                        assert(ss[i] == ps[i]);
                    }
                }
            }
            proof {
                let after = Seq::new((j + 1) as nat, |i: int| bs[i] + ss[i]);
                assert(after.drop_last() =~= before);
                assert(aggregated_orders@ =~= after.flatten_alt());
            }
            j = j + 1;
        }
        proof {
            let all = Seq::new(n as nat, |i: int| bs[i] + ss[i]);
            all.lemma_flatten_and_flatten_alt_are_equivalent();
            assert forall|i: int| 0 <= i < bs.len() implies (if is_active(
                self.active_indexers@,
                self.order_managers@[i].0@,
            ) {
                reported(self.order_managers@[i].1, OrderType::Buy, #[trigger] bs[i])
            } else {
                bs[i].len() == 0
            }) by {
                assert(self.reports_at(i, bs[i], ss[i]));
            }
            assert(self.reports(OrderType::Buy, bs));
            assert forall|i: int| 0 <= i < ss.len() implies (if is_active(
                self.active_indexers@,
                self.order_managers@[i].0@,
            ) {
                reported(self.order_managers@[i].1, OrderType::Sell, #[trigger] ss[i])
            } else {
                ss[i].len() == 0
            }) by {
                assert(self.reports_at(i, bs[i], ss[i]));
            }
            assert(self.reports(OrderType::Sell, ss));
            assert(self.both_reports(bs, ss));
        }
        aggregated_orders
    }

    /// What the active managers report, the buys manager after manager, then the sells.
    fn get_all_orders_without_type_tuple(&self) -> (r: (Vec<SpotOrder>, Vec<SpotOrder>))
        requires
            self.wf(),
        ensures
            exists|bs: Seq<Seq<SpotOrder>>, ss: Seq<Seq<SpotOrder>>|
                #[trigger] self.both_reports(bs, ss) && r.0@ == bs.flatten() && r.1@ == ss.flatten(),
    {
        let mut aggregated_buy_orders: Vec<SpotOrder> = Vec::new();
        let mut aggregated_sell_orders: Vec<SpotOrder> = Vec::new();
        let ghost mut bs: Seq<Seq<SpotOrder>> = Seq::empty();
        let ghost mut ss: Seq<Seq<SpotOrder>> = Seq::empty();
        let n = self.order_managers.len();
        let mut j: usize = 0;
        while j < n
            invariant
                n == self.order_managers@.len(),
                j <= n,
                self.wf(),
                bs.len() == j,
                ss.len() == j,
                forall|i: int| 0 <= i < j ==> self.reports_at(i, #[trigger] bs[i], ss[i]),
                aggregated_buy_orders@ == bs.flatten_alt(),
                aggregated_sell_orders@ == ss.flatten_alt(),
            decreases n - j,
        {
            let ghost pb = bs;
            let ghost ps = ss;
            if self.is_active_indexer(self.order_managers[j].0.as_str()) {
                let mut orders_buy = self.side_of_manager(j, OrderType::Buy);
                let mut orders_sell = self.side_of_manager(j, OrderType::Sell);
                proof {
                    bs = bs.push(orders_buy@);
                    ss = ss.push(orders_sell@);
                }
                aggregated_buy_orders.append(&mut orders_buy);
                aggregated_sell_orders.append(&mut orders_sell);
            } else {
                proof {
                    bs = bs.push(Seq::empty());
                    ss = ss.push(Seq::empty());
                }
            }
            proof {
                assert forall|i: int| 0 <= i < j + 1 implies self.reports_at(i, #[trigger] bs[i], ss[i]) by {
                    if i < j {
                        assert(bs[i] == pb[i]);
                        assert(ss[i] == ps[i]);
                    }
                }
            }
            proof {
                assert(bs.drop_last() =~= pb);
                assert(ss.drop_last() =~= ps);
                assert(aggregated_buy_orders@ =~= bs.flatten_alt());
                assert(aggregated_sell_orders@ =~= ss.flatten_alt());
            }
            j = j + 1;
        }
        proof {
            bs.lemma_flatten_and_flatten_alt_are_equivalent();
            ss.lemma_flatten_and_flatten_alt_are_equivalent();
            assert forall|i: int| 0 <= i < bs.len() implies (if is_active(
                self.active_indexers@,
                self.order_managers@[i].0@,
            ) {
                reported(self.order_managers@[i].1, OrderType::Buy, #[trigger] bs[i])
            } else {
                bs[i].len() == 0
            }) by {
                assert(self.reports_at(i, bs[i], ss[i]));
            }
            assert(self.reports(OrderType::Buy, bs));
            assert forall|i: int| 0 <= i < ss.len() implies (if is_active(
                self.active_indexers@,
                self.order_managers@[i].0@,
            ) {
                reported(self.order_managers@[i].1, OrderType::Sell, #[trigger] ss[i])
            } else {
                ss[i].len() == 0
            }) by {
                assert(self.reports_at(i, bs[i], ss[i]));
            }
            assert(self.reports(OrderType::Sell, ss));
            assert(self.both_reports(bs, ss));
        }
        (aggregated_buy_orders, aggregated_sell_orders)
    }

    /// The orders of side `order_type` that at least two active managers' reports agree on,
    /// by id: for each such id, in the order ids first occur, the last order reported.
    fn get_orders_with_consensus(&self, order_type: OrderType) -> (r: Vec<SpotOrder>)
        requires
            self.wf(),
            forall|rs: Seq<Seq<SpotOrder>>|
                #[trigger] self.reports(order_type, rs) ==> counts_fit(rs.flatten()),
        ensures
            exists|rs: Seq<Seq<SpotOrder>>|
                #[trigger] self.reports(order_type, rs) && r@ == consensus_of(rs.flatten()),
    {
        let all = self.get_all_orders(order_type);
        orders_with_consensus(all)
    }

    /// With more than two active indexers, the orders of side `order_type` that at least two
    /// of them report; otherwise every order they report.
    pub fn get_aggregated_orders(&self, order_type: OrderType) -> (r: Vec<SpotOrder>)
        requires
            self.wf(),
            self.active_indexers@.len() > 2 ==> forall|rs: Seq<Seq<SpotOrder>>|
                #[trigger] self.reports(order_type, rs) ==> counts_fit(rs.flatten()),
        ensures
            exists|rs: Seq<Seq<SpotOrder>>|
                #[trigger] self.reports(order_type, rs) && r@ == if self.active_indexers@.len() > 2 {
                    consensus_of(rs.flatten())
                } else {
                    rs.flatten()
                },
    {
        if self.active_indexers.len() > 2 {
            self.get_orders_with_consensus(order_type)
        } else {
            self.get_all_orders(order_type)
        }
    }

    /// Every order the active indexers report: manager after manager, its buys then its sells.
    pub fn get_all_aggregated_orders(&self) -> (r: Vec<SpotOrder>)
        requires
            self.wf(),
        ensures
            exists|bs: Seq<Seq<SpotOrder>>, ss: Seq<Seq<SpotOrder>>|
                #[trigger] self.both_reports(bs, ss) && r@ == Seq::new(
                    bs.len(),
                    |j: int| bs[j] + ss[j],
                ).flatten(),
    {
        self.get_all_orders_without_type()
    }

    /// The pairs drawn from every buy and every sell the active indexers report.
    pub fn select_matching_orders(&self) -> (r: Vec<OrderPair>)
        requires
            self.wf(),
        ensures
            exists|bs: Seq<Seq<SpotOrder>>, ss: Seq<Seq<SpotOrder>>|
                #[trigger] self.both_reports(bs, ss) && r@ == matches_of(bs.flatten(), ss.flatten()),
    {
        let (buy_orders, sell_orders) = self.get_all_orders_without_type_tuple();
        match_orders(buy_orders, sell_orders)
    }

    /// The pairs drawn from every buy and every sell the active indexers report, cut into
    /// batches of `batch_size`.
    pub fn select_matching_batches(&self, batch_size: usize) -> (r: Vec<Vec<OrderPair>>)
        requires
            self.wf(),
        ensures
            exists|bs: Seq<Seq<SpotOrder>>, ss: Seq<Seq<SpotOrder>>|
                #[trigger] self.both_reports(bs, ss) && r@.map_values(|b: Vec<OrderPair>| b@)
                    == batches_of(matches_of(bs.flatten(), ss.flatten()), batch_size as int),
    {
        let (buy_orders, sell_orders) = self.get_all_orders_without_type_tuple();
        let matches = match_orders(buy_orders, sell_orders);
        batch_matches(matches, batch_size)
    }

    /// Takes the matched orders, by id, out of every manager's pool, active or not.
    pub fn remove_matched_orders(&mut self, matched_order_ids: Vec<String>)
        requires
            old(self).wf(),
        ensures
            final(self).wf(),
            final(self).active_indexers@ == old(self).active_indexers@,
            final(self).order_managers@.len() == old(self).order_managers@.len(),
            forall|j: int|
                0 <= j < old(self).order_managers@.len() ==> {
                    let before = #[trigger] old(self).order_managers@[j];
                    let after = final(self).order_managers@[j];
                    &&& after.0 == before.0
                    &&& after.1.ranges() == before.1.ranges()
                    &&& after.1.shards() == pool_without_ids(
                        before.1.shards(),
                        id_views(matched_order_ids@).to_set(),
                    )
                },
    {
        let ghost m0 = self.order_managers@;
        let n = self.order_managers.len();
        let mut j: usize = 0;
        while j < n
            invariant
                n == self.order_managers@.len(),
                n == m0.len(),
                j <= n,
                self.wf(),
                self.active_indexers@ == old(self).active_indexers@,
                m0 == old(self).order_managers@,
                forall|i: int|
                    0 <= i < n ==> {
                        let before = m0[i];
                        let now = #[trigger] self.order_managers@[i];
                        if i < j {
                            &&& now.0 == before.0
                            &&& now.1.ranges() == before.1.ranges()
                            &&& now.1.shards() == pool_without_ids(
                                before.1.shards(),
                                id_views(matched_order_ids@).to_set(),
                            )
                        } else {
                            now == before
                        }
                    },
            decreases n - j,
        {
            let ghost prev = self.order_managers@;
            self.order_managers[j].1.remove_matched_orders(&matched_order_ids);
            assert forall|i: int| 0 <= i < n && i != j implies #[trigger] self.order_managers@[i] == prev[i] by {}
            j = j + 1;
        }
    }
}

} // verus!
