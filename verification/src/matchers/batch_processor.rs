//! Forming batches of one side's orders for matching, keeping aside the orders being matched.
use crate::indexer::spot_order::{OrderType, SpotOrder};
use crate::storage::matching_orders::MatchingOrders;
use crate::storage::order_book::{book_range, OrderBook};
use vstd::prelude::*;

verus! {

/// `acc` extended, order after order of `os`, by each order not being matched, until it holds
/// `batch` orders.
pub open spec fn pick_unmatched(os: Seq<SpotOrder>, m: Set<Seq<char>>, batch: int, acc: Seq<SpotOrder>) -> Seq<
    SpotOrder,
>
    decreases os.len(),
{
    if os.len() == 0 {
        acc
    } else {
        let next = if m.contains(os[0].id@) {
            acc
        } else {
            acc.push(os[0])
        };
        if next.len() >= batch {
            next
        } else {
            pick_unmatched(os.drop_first(), m, batch, next)
        }
    }
}

/// A batch holds no order being matched, and no more than `batch` orders beyond what it
/// started with, or one when `batch` is zero: the orders being matched stay aside.
pub proof fn lemma_pick_unmatched_free(os: Seq<SpotOrder>, m: Set<Seq<char>>, batch: int, acc: Seq<SpotOrder>)
    requires
        forall|i: int| 0 <= i < acc.len() ==> !m.contains((#[trigger] acc[i]).id@),
        acc.len() < batch || (batch <= 0 && acc.len() == 0),
    ensures
        forall|i: int|
            0 <= i < pick_unmatched(os, m, batch, acc).len() ==> !m.contains(
                (#[trigger] pick_unmatched(os, m, batch, acc)[i]).id@,
            ),
        pick_unmatched(os, m, batch, acc).len() <= if batch > 0 {
            batch
        } else {
            1
        },
    decreases os.len(),
{
    if os.len() > 0 {
        let next = if m.contains(os[0].id@) {
            acc
        } else {
            acc.push(os[0])
        };
        assert forall|i: int| 0 <= i < next.len() implies !m.contains((#[trigger] next[i]).id@) by {
            if i < acc.len() {
                assert(next[i] == acc[i]);
            }
        }
        if next.len() < batch {
            lemma_pick_unmatched_free(os.drop_first(), m, batch, next);
        } else if batch <= 0 && next.len() == 0 {
            lemma_pick_unmatched_free(os.drop_first(), m, batch, next);
        }
    }
}

/// The ids of some orders.
pub open spec fn order_ids(os: Seq<SpotOrder>) -> Set<Seq<char>> {
    os.map_values(|o: SpotOrder| o.id@).to_set()
}

/// A book and the orders of it being matched.
pub struct BatchProcessor {
    pub matching_orders: MatchingOrders,
    pub order_book: OrderBook,
}

impl BatchProcessor {
    /// A processor over `order_book`, with no order being matched.
    pub fn new(order_book: OrderBook) -> (r: Self)
        ensures
            r.order_book == order_book,
            r.matching_orders@ == Set::<Seq<char>>::empty(),
            r.matching_orders.wf(),
    {
        BatchProcessor { matching_orders: MatchingOrders::new(), order_book }
    }

    /// The first orders of a side, by price, that are not being matched, until `batch_size`
    /// of them are picked (one at least, when there is one); they are then being matched.
    pub fn form_batch(&mut self, batch_size: usize, order_type: OrderType) -> (r: Vec<SpotOrder>)
        requires
            old(self).matching_orders.wf(),
        ensures
            r@ == pick_unmatched(
                book_range(old(self).order_book@, 0, u128::MAX, order_type),
                old(self).matching_orders@,
                batch_size as int,
                Seq::empty(),
            ),
            final(self).matching_orders.wf(),
            final(self).matching_orders@ == old(self).matching_orders@.union(order_ids(r@)),
            final(self).order_book == old(self).order_book,
    {
        let ghost m0 = self.matching_orders@;
        let ghost book0 = self.order_book;
        let orders = self.order_book.get_orders_in_range(0, u128::MAX, order_type);
        let ghost all = orders@;
        let mut available_orders: Vec<SpotOrder> = Vec::new();
        let n = orders.len();
        let mut k: usize = 0;
        assert(all.skip(0) =~= all);
        while k < n
            invariant_except_break
                pick_unmatched(all, m0, batch_size as int, Seq::empty()) == pick_unmatched(
                    all.skip(k as int),
                    m0,
                    batch_size as int,
                    available_orders@,
                ),
            invariant
                n == all.len(),
                all == orders@,
                k <= n,
                self.matching_orders@ == m0,
                self.order_book == book0,
            ensures
                available_orders@ == pick_unmatched(all, m0, batch_size as int, Seq::empty()),
            decreases n - k,
        {
            assert(all.skip(k as int).drop_first() =~= all.skip(k + 1));
            let order = &orders[k];
            if !self.matching_orders.contains(order.id.as_str()) {
                available_orders.push(order.clone());
            }
            k = k + 1;
            if available_orders.len() >= batch_size {
                break;
            }
        }
        let ghost picked = available_orders@;
        let m = available_orders.len();
        let mut j: usize = 0;
        while j < m
            invariant
                m == picked.len(),
                picked == available_orders@,
                j <= m,
                self.order_book == book0,
                self.matching_orders.wf(),
                self.matching_orders@ == m0.union(order_ids(picked.take(j as int))),
            decreases m - j,
        {
            let ghost before = picked.take(j as int);
            self.matching_orders.add(available_orders[j].id.as_str());
            proof {
                let after = picked.take(j + 1);
                assert(after =~= before.push(picked[j as int]));
                assert(after.map_values(|o: SpotOrder| o.id@) =~= before.map_values(
                    |o: SpotOrder| o.id@,
                ).push(picked[j as int].id@));
                before.map_values(|o: SpotOrder| o.id@).lemma_push_to_set_commute(picked[j as int].id@);
            }
            j = j + 1;
        }
        assert(picked.take(m as int) =~= picked);
        available_orders
    }

    /// The orders `orders` are no longer being matched.
    pub fn remove_from_matching(&mut self, orders: Vec<SpotOrder>)
        requires
            old(self).matching_orders.wf(),
        ensures
            final(self).matching_orders.wf(),
            final(self).matching_orders@ == old(self).matching_orders@.difference(order_ids(orders@)),
            final(self).order_book == old(self).order_book,
    {
        let ghost m0 = self.matching_orders@;
        let ghost book0 = self.order_book;
        let n = orders.len();
        let mut k: usize = 0;
        while k < n
            invariant
                n == orders@.len(),
                k <= n,
                self.order_book == book0,
                self.matching_orders.wf(),
                self.matching_orders@ == m0.difference(order_ids(orders@.take(k as int))),
            decreases n - k,
        {
            let ghost before = orders@.take(k as int);
            self.matching_orders.remove(orders[k].id.as_str());
            proof {
                let after = orders@.take(k + 1);
                assert(after =~= before.push(orders@[k as int]));
                assert(after.map_values(|o: SpotOrder| o.id@) =~= before.map_values(
                    |o: SpotOrder| o.id@,
                ).push(orders@[k as int].id@));
                before.map_values(|o: SpotOrder| o.id@).lemma_push_to_set_commute(orders@[k as int].id@);
                assert(m0.difference(order_ids(after)) =~= m0.difference(order_ids(before)).remove(
                    orders@[k as int].id@,
                ));
            }
            k = k + 1;
        }
        assert(orders@.take(n as int) =~= orders@);
    }
}

} // verus!
