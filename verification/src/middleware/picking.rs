//! What picking crossing orders from the pool's shards guarantees.
use crate::indexer::spot_order::SpotOrder;
use crate::middleware::order_pool::{available, batch_over, first_crossing, pair_buys};
use vstd::prelude::*;

verus! {

/// Sell `j` is the first of `sells` that a buy at `price` crosses.
pub open spec fn first_crossed(sells: Seq<SpotOrder>, price: u128, j: int) -> bool {
    &&& 0 <= j < sells.len()
    &&& sells[j].price <= price
    &&& forall|i: int| 0 <= i < j ==> sells[i].price > price
}

/// `r` holds, at or after position `from`, buy `b` directly followed by sell `s`.
pub open spec fn picks_pair(r: Seq<SpotOrder>, from: int, b: SpotOrder, s: SpotOrder) -> bool {
    exists|p: int| 0 <= p && from <= p && p + 1 < r.len() && #[trigger] r[p] == b && r[p + 1] == s
}

/// The first sell a buy at `price` crosses is the first sell priced at most `price`.
proof fn lemma_first_crossing_is_first(sells: Seq<SpotOrder>, price: u128, j: int)
    requires
        first_crossed(sells, price, j),
    ensures
        first_crossing(sells, price) == Some(sells[j]),
    decreases j,
{
    if j > 0 {
        let d = sells.drop_first();
        assert forall|i: int| 0 <= i < j - 1 implies d[i].price > price by {
            assert(d[i] == sells[i + 1]);
        }
        assert(d[j - 1] == sells[j]);
        lemma_first_crossing_is_first(d, price, j - 1);
    }
}

/// A longer sequence that starts with `r` still holds the pairs `r` holds.
proof fn lemma_picks_pair_extend(r: Seq<SpotOrder>, r2: Seq<SpotOrder>, from: int, b: SpotOrder, s: SpotOrder)
    requires
        picks_pair(r, from, b, s),
        r2.len() >= r.len(),
        r2.take(r.len() as int) == r,
    ensures
        picks_pair(r2, from, b, s),
{
    let p = choose|p: int| 0 <= p && from <= p && p + 1 < r.len() && #[trigger] r[p] == b && r[p + 1] == s;
    assert(r2.take(r.len() as int)[p] == r2[p]);
    assert(r2.take(r.len() as int)[p + 1] == r2[p + 1]);
    assert(r2[p] == b);
}

/// Pairing buys against sells keeps what was picked before, and, unless the batch fills,
/// picks every buy that crosses a sell, followed by the first sell it crosses.
pub proof fn lemma_pair_buys_complete(buys: Seq<SpotOrder>, sells: Seq<SpotOrder>, acc: Seq<SpotOrder>, batch: int)
    ensures
        pair_buys(buys, sells, acc, batch).len() >= acc.len(),
        pair_buys(buys, sells, acc, batch).take(acc.len() as int) == acc,
        pair_buys(buys, sells, acc, batch).len() < batch ==> forall|k: int, j: int|
            0 <= k < buys.len() && #[trigger] first_crossed(sells, buys[k].price, j) ==> picks_pair(
                pair_buys(buys, sells, acc, batch),
                acc.len() as int,
                buys[k],
                sells[j],
            ),
    decreases buys.len(),
{
    let r = pair_buys(buys, sells, acc, batch);
    if buys.len() == 0 || acc.len() >= batch {
        assert(r.take(acc.len() as int) =~= acc);
    } else {
        let next = match first_crossing(sells, buys[0].price) {
            Some(s) => acc.push(buys[0]).push(s),
            None => acc,
        };
        let rest = buys.drop_first();
        lemma_pair_buys_complete(rest, sells, next, batch);
        assert(r == pair_buys(rest, sells, next, batch));
        assert(next.take(acc.len() as int) =~= acc);
        assert(r.take(acc.len() as int) =~= acc) by {
            assert forall|x: int| 0 <= x < acc.len() implies r[x] == acc[x] by {
                assert(r.take(next.len() as int)[x] == next[x]);
            }
        }
        if r.len() < batch {
            assert forall|k: int, j: int|
                0 <= k < buys.len() && #[trigger] first_crossed(sells, buys[k].price, j) implies picks_pair(
                r,
                acc.len() as int,
                buys[k],
                sells[j],
            ) by {
                if k == 0 {
                    lemma_first_crossing_is_first(sells, buys[0].price, j);
                    let p = acc.len() as int;
                    assert(r.take(next.len() as int)[p] == next[p]);
                    assert(r.take(next.len() as int)[p + 1] == next[p + 1]);
                    assert(r[p] == buys[k] && r[p + 1] == sells[j]);
                } else {
                    assert(rest[k - 1] == buys[k]);
                    assert(first_crossed(sells, rest[k - 1].price, j));
                    assert(picks_pair(r, next.len() as int, rest[k - 1], sells[j]));
                    let p = choose|p: int|
                        0 <= p && next.len() <= p && p + 1 < r.len() && #[trigger] r[p] == rest[k - 1] && r[p + 1] == sells[j];
                    assert(r[p] == buys[k]);
                }
            }
        }
    }
}

/// Picking from the shards, when the batch does not fill: for every shard, every available
/// buy that crosses an available sell is picked, followed by the first available sell it
/// crosses.
pub proof fn lemma_batch_over_complete(bl: Seq<Seq<SpotOrder>>, sl: Seq<Seq<SpotOrder>>, batch: int, i: int)
    requires
        bl.len() == sl.len(),
        0 <= i < bl.len(),
        batch_over(bl, sl, batch).len() < batch,
    ensures
        forall|k: int, j: int|
            0 <= k < bl[i].filter(available()).len() && #[trigger] first_crossed(
                sl[i].filter(available()),
                bl[i].filter(available())[k].price,
                j,
            ) ==> picks_pair(
                batch_over(bl, sl, batch),
                0,
                bl[i].filter(available())[k],
                sl[i].filter(available())[j],
            ),
    decreases bl.len(),
{
    let before = batch_over(bl.drop_last(), sl.drop_last(), batch);
    let r = batch_over(bl, sl, batch);
    let n = bl.len() - 1;
    let bs = bl[i].filter(available());
    let ss = sl[i].filter(available());
    lemma_pair_buys_complete(bl.last().filter(available()), sl.last().filter(available()), before, batch);
    assert(r == pair_buys(bl.last().filter(available()), sl.last().filter(available()), before, batch));
    if i < n {
        assert(bl.drop_last()[i] == bl[i] && sl.drop_last()[i] == sl[i]);
        lemma_batch_over_complete(bl.drop_last(), sl.drop_last(), batch, i);
        assert forall|k: int, j: int|
            0 <= k < bs.len() && #[trigger] first_crossed(ss, bs[k].price, j) implies picks_pair(r, 0, bs[k], ss[j]) by {
            assert(picks_pair(before, 0, bs[k], ss[j]));
            lemma_picks_pair_extend(before, r, 0, bs[k], ss[j]);
        }
    } else {
        assert(bl.last() == bl[i] && sl.last() == sl[i]);
        assert forall|k: int, j: int|
            0 <= k < bs.len() && #[trigger] first_crossed(ss, bs[k].price, j) implies picks_pair(r, 0, bs[k], ss[j]) by {
            assert(picks_pair(r, before.len() as int, bs[k], ss[j]));
            let p = choose|p: int| 0 <= p && before.len() <= p && p + 1 < r.len() && #[trigger] r[p] == bs[k] && r[p + 1] == ss[j];
            assert(0 <= p);
        }
    }
}

} // verus!
