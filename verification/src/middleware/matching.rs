//! What drawing pairs of crossing buys and sells guarantees.
use crate::indexer::spot_order::SpotOrder;
use crate::matchers::websocket::with_amount;
use crate::middleware::aggregator::{
    heap_before, lemma_top_index_bounds, lemma_top_is_best, matches_of, top_index, OrderPair,
};
use vstd::prelude::*;

verus! {

/// The amount a pair trades: the smaller of its two orders' amounts.
pub open spec fn traded(p: OrderPair) -> int {
    if p.0.amount <= p.1.amount {
        p.0.amount as int
    } else {
        p.1.amount as int
    }
}

/// How much the pairs `ms` trade of the buy with id `id`.
pub open spec fn bought(ms: Seq<OrderPair>, id: Seq<char>) -> int
    decreases ms.len(),
{
    if ms.len() == 0 {
        0
    } else {
        (if ms[0].0.id@ == id {
            traded(ms[0])
        } else {
            0
        }) + bought(ms.drop_first(), id)
    }
}

/// How much the pairs `ms` trade of the sell with id `id`.
pub open spec fn sold(ms: Seq<OrderPair>, id: Seq<char>) -> int
    decreases ms.len(),
{
    if ms.len() == 0 {
        0
    } else {
        (if ms[0].1.id@ == id {
            traded(ms[0])
        } else {
            0
        }) + sold(ms.drop_first(), id)
    }
}

/// No two orders of `s` carry the same id.
pub open spec fn ids_distinct(s: Seq<SpotOrder>) -> bool {
    forall|i: int, j: int| 0 <= i < j < s.len() ==> (#[trigger] s[i]).id@ != (#[trigger] s[j]).id@
}

/// No order of `s` carries the id `id`.
pub open spec fn id_absent(s: Seq<SpotOrder>, id: Seq<char>) -> bool {
    forall|k: int| 0 <= k < s.len() ==> (#[trigger] s[k]).id@ != id
}

proof fn lemma_remove_keeps(s: Seq<SpotOrder>, i: int)
    requires
        ids_distinct(s),
        0 <= i < s.len(),
    ensures
        ids_distinct(s.remove(i)),
        id_absent(s.remove(i), s[i].id@),
        forall|id: Seq<char>| id_absent(s, id) ==> id_absent(s.remove(i), id),
{
    let r = s.remove(i);
    assert forall|a: int, b: int| 0 <= a < b < r.len() implies (#[trigger] r[a]).id@ != (#[trigger] r[b]).id@ by {
        let a0 = if a < i { a } else { a + 1 };
        let b0 = if b < i { b } else { b + 1 };
        assert(r[a] == s[a0] && r[b] == s[b0]);
    }
    assert forall|k: int| 0 <= k < r.len() implies (#[trigger] r[k]).id@ != s[i].id@ by {
        let k0 = if k < i { k } else { k + 1 };
        assert(r[k] == s[k0]);
    }
    assert forall|id: Seq<char>| id_absent(s, id) implies id_absent(r, id) by {
        assert forall|k: int| 0 <= k < r.len() implies (#[trigger] r[k]).id@ != id by {
            let k0 = if k < i { k } else { k + 1 };
            assert(r[k] == s[k0]);
        }
    }
}

proof fn lemma_update_keeps(s: Seq<SpotOrder>, i: int, amount: u128)
    requires
        ids_distinct(s),
        0 <= i < s.len(),
    ensures
        ids_distinct(s.update(i, with_amount(s[i], amount))),
        forall|id: Seq<char>| id_absent(s, id) ==> id_absent(s.update(i, with_amount(s[i], amount)), id),
{
    let r = s.update(i, with_amount(s[i], amount));
    assert forall|a: int, b: int| 0 <= a < b < r.len() implies (#[trigger] r[a]).id@ != (#[trigger] r[b]).id@ by {
        assert(r[a].id == s[a].id && r[b].id == s[b].id);
    }
    assert forall|id: Seq<char>| id_absent(s, id) implies id_absent(r, id) by {
        assert forall|k: int| 0 <= k < r.len() implies (#[trigger] r[k]).id@ != id by {
            assert(r[k].id == s[k].id);
        }
    }
}

/// Drawing pairs from buys `bs` and sells `ss`, each side's ids distinct, trades no order
/// for more than its amount, trades nothing of an order not given, and leaves no buy with an
/// amount still to trade that crosses a sell with an amount still to trade: a sell only
/// partly filled stays in play with what is left of it, and so does a buy.
pub proof fn lemma_matching_exhausts(bs: Seq<SpotOrder>, ss: Seq<SpotOrder>)
    requires
        ids_distinct(bs),
        ids_distinct(ss),
    ensures
        forall|k: int| 0 <= k < bs.len() ==> bought(matches_of(bs, ss), (#[trigger] bs[k]).id@) <= bs[k].amount,
        forall|l: int| 0 <= l < ss.len() ==> sold(matches_of(bs, ss), (#[trigger] ss[l]).id@) <= ss[l].amount,
        forall|id: Seq<char>| id_absent(bs, id) ==> #[trigger] bought(matches_of(bs, ss), id) == 0,
        forall|id: Seq<char>| id_absent(ss, id) ==> #[trigger] sold(matches_of(bs, ss), id) == 0,
        forall|k: int, l: int|
            0 <= k < bs.len() && 0 <= l < ss.len() && bought(matches_of(bs, ss), (#[trigger] bs[k]).id@)
                < bs[k].amount && sold(matches_of(bs, ss), (#[trigger] ss[l]).id@) < ss[l].amount
                ==> bs[k].price < ss[l].price,
    decreases bs.len() + ss.len(),
{
    let m = matches_of(bs, ss);
    if bs.len() == 0 || ss.len() == 0 {
        assert(m.len() == 0);
    } else {
        lemma_top_index_bounds(bs, true);
        lemma_top_index_bounds(ss, false);
        lemma_top_is_best(ss, false);
        let i = top_index(bs, true);
        let j = top_index(ss, false);
        let b = bs[i];
        let s = ss[j];
        lemma_remove_keeps(bs, i);
        lemma_remove_keeps(ss, j);
        if b.price >= s.price {
            let pair = (b, s);
            let (nb, ns) = if b.amount > s.amount {
                (bs.update(i, with_amount(b, (b.amount - s.amount) as u128)), ss.remove(j))
            } else if b.amount < s.amount {
                (bs.remove(i), ss.update(j, with_amount(s, (s.amount - b.amount) as u128)))
            } else {
                (bs.remove(i), ss.remove(j))
            };
            if b.amount > s.amount {
                lemma_update_keeps(bs, i, (b.amount - s.amount) as u128);
            } else if b.amount < s.amount {
                lemma_update_keeps(ss, j, (s.amount - b.amount) as u128);
            }
            lemma_matching_exhausts(nb, ns);
            let m2 = matches_of(nb, ns);
            assert(m == seq![pair] + m2);
            assert(m.drop_first() =~= m2);
            assert(m[0] == pair);
            // the traded amounts, order by order
            assert forall|id: Seq<char>| #[trigger] bought(m, id) == (if id == b.id@ {
                traded(pair)
            } else {
                0
            }) + bought(m2, id) by {}
            assert forall|id: Seq<char>| #[trigger] sold(m, id) == (if id == s.id@ {
                traded(pair)
            } else {
                0
            }) + sold(m2, id) by {}
            // where each given order sits among the remaining ones
            assert forall|k: int| #![trigger bs[k]] 0 <= k < bs.len() && k != i implies exists|k2: int|
                0 <= k2 < nb.len() && #[trigger] nb[k2] == bs[k] by {
                if b.amount > s.amount {
                    assert(nb[k] == bs[k]);
                } else {
                    let k2 = if k < i { k } else { k - 1 };
                    assert(nb[k2] == bs[k]);
                }
            }
            assert forall|l: int| #![trigger ss[l]] 0 <= l < ss.len() && l != j implies exists|l2: int|
                0 <= l2 < ns.len() && #[trigger] ns[l2] == ss[l] by {
                if b.amount < s.amount {
                    assert(ns[l] == ss[l]);
                } else {
                    let l2 = if l < j { l } else { l - 1 };
                    assert(ns[l2] == ss[l]);
                }
            }
            // the top orders after the pair: what is left of each
            if b.amount > s.amount {
                assert(nb[i] == with_amount(b, (b.amount - s.amount) as u128));
                assert(id_absent(ns, s.id@));
            } else if b.amount < s.amount {
                assert(ns[j] == with_amount(s, (s.amount - b.amount) as u128));
                assert(id_absent(nb, b.id@));
            } else {
                assert(id_absent(nb, b.id@));
                assert(id_absent(ns, s.id@));
            }
            assert forall|k: int| 0 <= k < bs.len() implies bought(m, (#[trigger] bs[k]).id@) <= bs[k].amount by {
                if k != i {
                    let k2 = choose|k2: int| 0 <= k2 < nb.len() && #[trigger] nb[k2] == bs[k];
                    assert(bs[k].id@ != b.id@);
                    assert(bought(m2, nb[k2].id@) <= nb[k2].amount);
                } else if b.amount > s.amount {
                    assert(bought(m2, nb[i].id@) <= nb[i].amount);
                }
            }
            assert forall|l: int| 0 <= l < ss.len() implies sold(m, (#[trigger] ss[l]).id@) <= ss[l].amount by {
                if l != j {
                    let l2 = choose|l2: int| 0 <= l2 < ns.len() && #[trigger] ns[l2] == ss[l];
                    assert(ss[l].id@ != s.id@);
                    assert(sold(m2, ns[l2].id@) <= ns[l2].amount);
                } else if b.amount < s.amount {
                    assert(sold(m2, ns[j].id@) <= ns[j].amount);
                }
            }
            assert forall|id: Seq<char>| id_absent(bs, id) implies #[trigger] bought(m, id) == 0 by {
                assert(b.id@ != id);
                if b.amount > s.amount {
                } else {
                }
            }
            assert forall|id: Seq<char>| id_absent(ss, id) implies #[trigger] sold(m, id) == 0 by {
                assert(s.id@ != id);
            }
            assert forall|k: int, l: int|
                0 <= k < bs.len() && 0 <= l < ss.len() && bought(m, (#[trigger] bs[k]).id@) < bs[k].amount && sold(
                    m,
                    (#[trigger] ss[l]).id@,
                ) < ss[l].amount implies bs[k].price < ss[l].price by {
                let (kk, ok) = if k != i {
                    let k2 = choose|k2: int| 0 <= k2 < nb.len() && #[trigger] nb[k2] == bs[k];
                    (k2, true)
                } else if b.amount > s.amount {
                    (i, true)
                } else {
                    (0, false)
                };
                let (ll, ol) = if l != j {
                    let l2 = choose|l2: int| 0 <= l2 < ns.len() && #[trigger] ns[l2] == ss[l];
                    (l2, true)
                } else if b.amount < s.amount {
                    (j, true)
                } else {
                    (0, false)
                };
                if k != i {
                    assert(bs[k].id@ != b.id@);
                }
                if l != j {
                    assert(ss[l].id@ != s.id@);
                }
                assert(ok && ol);
                assert(nb[kk].price == bs[k].price && nb[kk].id == bs[k].id);
                assert(ns[ll].price == ss[l].price && ns[ll].id == ss[l].id);
                assert(bought(m2, nb[kk].id@) < nb[kk].amount);
                assert(sold(m2, ns[ll].id@) < ns[ll].amount);
            }
        } else {
            let nb = bs.remove(i);
            lemma_matching_exhausts(nb, ss);
            assert(m == matches_of(nb, ss));
            assert forall|k: int| #![trigger bs[k]] 0 <= k < bs.len() && k != i implies exists|k2: int|
                0 <= k2 < nb.len() && #[trigger] nb[k2] == bs[k] by {
                let k2 = if k < i { k } else { k - 1 };
                assert(nb[k2] == bs[k]);
            }
            assert forall|k: int| 0 <= k < bs.len() implies bought(m, (#[trigger] bs[k]).id@) <= bs[k].amount by {
                if k != i {
                    let k2 = choose|k2: int| 0 <= k2 < nb.len() && #[trigger] nb[k2] == bs[k];
                    assert(bought(m, nb[k2].id@) <= nb[k2].amount);
                } else {
                    assert(id_absent(nb, b.id@));
                }
            }
            assert forall|k: int, l: int|
                0 <= k < bs.len() && 0 <= l < ss.len() && bought(m, (#[trigger] bs[k]).id@) < bs[k].amount && sold(
                    m,
                    (#[trigger] ss[l]).id@,
                ) < ss[l].amount implies bs[k].price < ss[l].price by {
                if k != i {
                    let k2 = choose|k2: int| 0 <= k2 < nb.len() && #[trigger] nb[k2] == bs[k];
                    assert(bought(m, nb[k2].id@) < nb[k2].amount);
                } else {
                    assert(!heap_before(ss[l], ss[j], false));
                }
            }
        }
    }
}

/// When some buy crosses some sell, the first pair drawn is the best buy against the best
/// sell: no buy has a higher price, or the same price and a later timestamp; no sell has a
/// lower price, or the same price and an earlier timestamp.
pub proof fn lemma_matching_best_first(bs: Seq<SpotOrder>, ss: Seq<SpotOrder>, k0: int, l0: int)
    requires
        0 <= k0 < bs.len(),
        0 <= l0 < ss.len(),
        bs[k0].price >= ss[l0].price,
    ensures
        matches_of(bs, ss).len() > 0,
        bs.contains(matches_of(bs, ss)[0].0),
        ss.contains(matches_of(bs, ss)[0].1),
        forall|k: int|
            0 <= k < bs.len() ==> !((#[trigger] bs[k]).price > matches_of(bs, ss)[0].0.price || (bs[k].price
                == matches_of(bs, ss)[0].0.price && bs[k].timestamp > matches_of(bs, ss)[0].0.timestamp)),
        forall|l: int|
            0 <= l < ss.len() ==> !((#[trigger] ss[l]).price < matches_of(bs, ss)[0].1.price || (ss[l].price
                == matches_of(bs, ss)[0].1.price && ss[l].timestamp < matches_of(bs, ss)[0].1.timestamp)),
{
    lemma_top_index_bounds(bs, true);
    lemma_top_index_bounds(ss, false);
    lemma_top_is_best(bs, true);
    lemma_top_is_best(ss, false);
    let i = top_index(bs, true);
    let j = top_index(ss, false);
    assert(!heap_before(bs[k0], bs[i], true));
    assert(!heap_before(ss[l0], ss[j], false));
    assert(bs[i].price >= ss[j].price);
    let m = matches_of(bs, ss);
    assert(m[0] == (bs[i], ss[j]));
    assert forall|k: int| 0 <= k < bs.len() implies !((#[trigger] bs[k]).price > m[0].0.price || (bs[k].price
        == m[0].0.price && bs[k].timestamp > m[0].0.timestamp)) by {
        assert(!heap_before(bs[k], bs[i], true));
    }
    assert forall|l: int| 0 <= l < ss.len() implies !((#[trigger] ss[l]).price < m[0].1.price || (ss[l].price
        == m[0].1.price && ss[l].timestamp < m[0].1.timestamp)) by {
        assert(!heap_before(ss[l], ss[j], false));
    }
}

} // verus!
