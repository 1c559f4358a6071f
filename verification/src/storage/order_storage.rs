//! The book together with the set of orders being matched.
use crate::storage::matching_orders::MatchingOrders;
use crate::storage::order_book::OrderBook;
use vstd::prelude::*;

verus! {

/// The order book and the ids of the orders handed to matchers.
pub struct OrderStorage {
    pub order_book: OrderBook,
    pub matching_orders: MatchingOrders,
}

impl OrderStorage {
    /// Both parts well formed.
    pub open spec fn wf(&self) -> bool {
        self.order_book.wf() && self.matching_orders.wf()
    }

    /// An empty book and an empty matching set.
    pub fn new() -> (r: Self)
        ensures
            r.wf(),
            r.order_book@ == (Seq::<crate::storage::order_book::Level>::empty(), Seq::<
                crate::storage::order_book::Level,
            >::empty()),
            r.matching_orders@ == Set::<Seq<char>>::empty(),
    {
        Self { order_book: OrderBook::new(), matching_orders: MatchingOrders::new() }
    }

    /// A copy of the book.
    pub fn clone_order_book(&self) -> (r: OrderBook)
        ensures
            r@ == self.order_book@,
    {
        self.order_book.clone()
    }

    /// A copy of the matching set.
    pub fn clone_matching_orders(&self) -> (r: MatchingOrders)
        ensures
            r@ == self.matching_orders@,
            r.wf() == self.matching_orders.wf(),
    {
        self.matching_orders.clone()
    }
}

} // verus!
