//! What serving a matcher a batch of crossing orders guarantees.
use crate::indexer::spot_order::SpotOrder;
use crate::matchers::websocket::{pair_up, with_amount};
use crate::middleware::matching::{id_absent, ids_distinct};
use vstd::prelude::*;

verus! {

/// How much a batch `os` of buy, sell, buy, sell, ... serves of the buy with id `id`.
pub open spec fn served_buy(os: Seq<SpotOrder>, id: Seq<char>) -> int
    decreases os.len(),
{
    if os.len() < 2 {
        0
    } else {
        (if os[0].id@ == id {
            os[0].amount as int
        } else {
            0
        }) + served_buy(os.skip(2), id)
    }
}

/// How much a batch `os` of buy, sell, buy, sell, ... serves of the sell with id `id`.
pub open spec fn served_sell(os: Seq<SpotOrder>, id: Seq<char>) -> int
    decreases os.len(),
{
    if os.len() < 2 {
        0
    } else {
        (if os[1].id@ == id {
            os[1].amount as int
        } else {
            0
        }) + served_sell(os.skip(2), id)
    }
}

/// Buys from the highest price down.
pub open spec fn prices_descend(b: Seq<SpotOrder>) -> bool {
    forall|i: int, j: int| 0 <= i < j < b.len() ==> (#[trigger] b[i]).price >= (#[trigger] b[j]).price
}

proof fn lemma_drop_first_keeps(s: Seq<SpotOrder>)
    requires
        ids_distinct(s),
        s.len() > 0,
    ensures
        ids_distinct(s.drop_first()),
        id_absent(s.drop_first(), s[0].id@),
        forall|id: Seq<char>| id_absent(s, id) ==> id_absent(s.drop_first(), id),
        prices_descend(s) ==> prices_descend(s.drop_first()),
{
    let r = s.drop_first();
    assert forall|a: int, b: int| 0 <= a < b < r.len() implies (#[trigger] r[a]).id@ != (#[trigger] r[b]).id@ by {
        assert(r[a] == s[a + 1] && r[b] == s[b + 1]);
    }
    assert forall|k: int| 0 <= k < r.len() implies (#[trigger] r[k]).id@ != s[0].id@ by {
        assert(r[k] == s[k + 1]);
    }
    assert forall|id: Seq<char>| id_absent(s, id) implies id_absent(r, id) by {
        assert forall|k: int| 0 <= k < r.len() implies (#[trigger] r[k]).id@ != id by {
            assert(r[k] == s[k + 1]);
        }
    }
    if prices_descend(s) {
        assert forall|a: int, b: int| 0 <= a < b < r.len() implies (#[trigger] r[a]).price >= (#[trigger] r[b]).price by {
            assert(r[a] == s[a + 1] && r[b] == s[b + 1]);
        }
    }
}

proof fn lemma_head_update_keeps(s: Seq<SpotOrder>, amount: u128)
    requires
        ids_distinct(s),
        s.len() > 0,
    ensures
        ids_distinct(s.update(0, with_amount(s[0], amount))),
        forall|id: Seq<char>| id_absent(s, id) ==> id_absent(s.update(0, with_amount(s[0], amount)), id),
        prices_descend(s) ==> prices_descend(s.update(0, with_amount(s[0], amount))),
{
    let r = s.update(0, with_amount(s[0], amount));
    assert forall|a: int, b: int| 0 <= a < b < r.len() implies (#[trigger] r[a]).id@ != (#[trigger] r[b]).id@ by {
        assert(r[a].id == s[a].id && r[b].id == s[b].id);
    }
    assert forall|id: Seq<char>| id_absent(s, id) implies id_absent(r, id) by {
        assert forall|k: int| 0 <= k < r.len() implies (#[trigger] r[k]).id@ != id by {
            assert(r[k].id == s[k].id);
        }
    }
    if prices_descend(s) {
        assert forall|a: int, b: int| 0 <= a < b < r.len() implies (#[trigger] r[a]).price >= (#[trigger] r[b]).price by {
            assert(r[a].price == s[a].price && r[b].price == s[b].price);
        }
    }
}

/// Serving a batch from a buy queue, highest price first, and a sell queue, each with
/// distinct ids: no order is served for more than its amount, none not queued is served,
/// and unless the batch fills, no buy with an amount still to serve crosses a sell with an
/// amount still to serve: a head order leaves its queue only once used up, or, for a sell,
/// once no buy left can cross it.
pub proof fn lemma_serving_exhausts(b: Seq<SpotOrder>, s: Seq<SpotOrder>, batch: int, out_len: int)
    requires
        ids_distinct(b),
        ids_distinct(s),
        prices_descend(b),
    ensures
        forall|k: int| 0 <= k < b.len() ==> served_buy(pair_up(b, s, batch, out_len).0, (#[trigger] b[k]).id@) <= b[k].amount,
        forall|l: int| 0 <= l < s.len() ==> served_sell(pair_up(b, s, batch, out_len).0, (#[trigger] s[l]).id@) <= s[l].amount,
        forall|id: Seq<char>| id_absent(b, id) ==> #[trigger] served_buy(pair_up(b, s, batch, out_len).0, id) == 0,
        forall|id: Seq<char>| id_absent(s, id) ==> #[trigger] served_sell(pair_up(b, s, batch, out_len).0, id) == 0,
        out_len + pair_up(b, s, batch, out_len).0.len() < batch ==> forall|k: int, l: int|
            0 <= k < b.len() && 0 <= l < s.len() && served_buy(pair_up(b, s, batch, out_len).0, (#[trigger] b[k]).id@)
                < b[k].amount && served_sell(pair_up(b, s, batch, out_len).0, (#[trigger] s[l]).id@) < s[l].amount
                ==> b[k].price < s[l].price,
    decreases b.len() + s.len(),
{
    let os = pair_up(b, s, batch, out_len).0;
    if b.len() == 0 || s.len() == 0 || out_len >= batch {
        assert(os.len() == 0);
    } else if b[0].price >= s[0].price {
        let t = if b[0].amount <= s[0].amount {
            b[0].amount
        } else {
            s[0].amount
        };
        let nb = if b[0].amount == t {
            b.drop_first()
        } else {
            b.update(0, with_amount(b[0], (b[0].amount - t) as u128))
        };
        let ns = if s[0].amount == t {
            s.drop_first()
        } else {
            s.update(0, with_amount(s[0], (s[0].amount - t) as u128))
        };
        lemma_drop_first_keeps(b);
        lemma_drop_first_keeps(s);
        lemma_head_update_keeps(b, (b[0].amount - t) as u128);
        lemma_head_update_keeps(s, (s[0].amount - t) as u128);
        lemma_serving_exhausts(nb, ns, batch, out_len + 2);
        let rest = pair_up(nb, ns, batch, out_len + 2).0;
        assert(os == seq![with_amount(b[0], t), with_amount(s[0], t)] + rest);
        assert(os.skip(2) =~= rest);
        assert forall|id: Seq<char>| #[trigger] served_buy(os, id) == (if id == b[0].id@ {
            t as int
        } else {
            0
        }) + served_buy(rest, id) by {}
        assert forall|id: Seq<char>| #[trigger] served_sell(os, id) == (if id == s[0].id@ {
            t as int
        } else {
            0
        }) + served_sell(rest, id) by {}
        assert forall|k: int| #![trigger b[k]] 0 < k < b.len() implies exists|k2: int|
            0 <= k2 < nb.len() && #[trigger] nb[k2] == b[k] by {
            if b[0].amount == t {
                assert(nb[k - 1] == b[k]);
            } else {
                assert(nb[k] == b[k]);
            }
        }
        assert forall|l: int| #![trigger s[l]] 0 < l < s.len() implies exists|l2: int|
            0 <= l2 < ns.len() && #[trigger] ns[l2] == s[l] by {
            if s[0].amount == t {
                assert(ns[l - 1] == s[l]);
            } else {
                assert(ns[l] == s[l]);
            }
        }
        if b[0].amount != t {
            assert(nb[0] == with_amount(b[0], (b[0].amount - t) as u128));
        }
        if s[0].amount != t {
            assert(ns[0] == with_amount(s[0], (s[0].amount - t) as u128));
        }
        assert forall|k: int| 0 <= k < b.len() implies served_buy(os, (#[trigger] b[k]).id@) <= b[k].amount by {
            if k > 0 {
                let k2 = choose|k2: int| 0 <= k2 < nb.len() && #[trigger] nb[k2] == b[k];
                assert(b[k].id@ != b[0].id@);
                assert(served_buy(rest, nb[k2].id@) <= nb[k2].amount);
            } else if b[0].amount != t {
                assert(served_buy(rest, nb[0].id@) <= nb[0].amount);
            }
        }
        assert forall|l: int| 0 <= l < s.len() implies served_sell(os, (#[trigger] s[l]).id@) <= s[l].amount by {
            if l > 0 {
                let l2 = choose|l2: int| 0 <= l2 < ns.len() && #[trigger] ns[l2] == s[l];
                assert(s[l].id@ != s[0].id@);
                assert(served_sell(rest, ns[l2].id@) <= ns[l2].amount);
            } else if s[0].amount != t {
                assert(served_sell(rest, ns[0].id@) <= ns[0].amount);
            }
        }
        assert forall|id: Seq<char>| id_absent(b, id) implies #[trigger] served_buy(os, id) == 0 by {
            assert(b[0].id@ != id);
        }
        assert forall|id: Seq<char>| id_absent(s, id) implies #[trigger] served_sell(os, id) == 0 by {
            assert(s[0].id@ != id);
        }
        if out_len + os.len() < batch {
            assert forall|k: int, l: int|
                0 <= k < b.len() && 0 <= l < s.len() && served_buy(os, (#[trigger] b[k]).id@) < b[k].amount
                    && served_sell(os, (#[trigger] s[l]).id@) < s[l].amount implies b[k].price < s[l].price by {
                let kk = if k > 0 {
                    choose|k2: int| 0 <= k2 < nb.len() && #[trigger] nb[k2] == b[k]
                } else {
                    0
                };
                let ll = if l > 0 {
                    choose|l2: int| 0 <= l2 < ns.len() && #[trigger] ns[l2] == s[l]
                } else {
                    0
                };
                if k > 0 {
                    assert(b[k].id@ != b[0].id@);
                }
                if l > 0 {
                    assert(s[l].id@ != s[0].id@);
                }
                assert(nb[kk].price == b[k].price && nb[kk].id == b[k].id);
                assert(ns[ll].price == s[l].price && ns[ll].id == s[l].id);
                assert(served_buy(rest, nb[kk].id@) < nb[kk].amount);
                assert(served_sell(rest, ns[ll].id@) < ns[ll].amount);
            }
        }
    } else {
        let ns = s.drop_first();
        lemma_drop_first_keeps(s);
        lemma_serving_exhausts(b, ns, batch, out_len);
        assert(os == pair_up(b, ns, batch, out_len).0);
        assert forall|l: int| #![trigger s[l]] 0 < l < s.len() implies exists|l2: int|
            0 <= l2 < ns.len() && #[trigger] ns[l2] == s[l] by {
            assert(ns[l - 1] == s[l]);
        }
        assert forall|l: int| 0 <= l < s.len() implies served_sell(os, (#[trigger] s[l]).id@) <= s[l].amount by {
            if l > 0 {
                let l2 = choose|l2: int| 0 <= l2 < ns.len() && #[trigger] ns[l2] == s[l];
                assert(served_sell(os, ns[l2].id@) <= ns[l2].amount);
            } else {
                assert(id_absent(ns, s[0].id@));
            }
        }
        if out_len + os.len() < batch {
            assert forall|k: int, l: int|
                0 <= k < b.len() && 0 <= l < s.len() && served_buy(os, (#[trigger] b[k]).id@) < b[k].amount
                    && served_sell(os, (#[trigger] s[l]).id@) < s[l].amount implies b[k].price < s[l].price by {
                if l > 0 {
                    let l2 = choose|l2: int| 0 <= l2 < ns.len() && #[trigger] ns[l2] == s[l];
                    assert(served_sell(os, ns[l2].id@) < ns[l2].amount);
                } else if k > 0 {
                    assert(b[0].price >= b[k].price);
                }
            }
        }
    }
}

} // verus!
