//! One indexer's orders: a sharded pool, and the messages that change it.
use crate::indexer::spot_order::{OrderType, SpotOrder};
use crate::middleware::order_shard::id_views;
use crate::middleware::order_pool::{
    band_listings, best_buys_of, best_sells_of, empty_shards, generate_price_time_ranges,
    pool_after_add, pool_after_adds, pool_after_band_remove, pool_band_removal_ok, pool_without_ids, ranges_at,
    PriceTimeRange, ShardView, ShardedOrderPool,
};
use vstd::prelude::*;

verus! {

/// A change to an indexer's orders.
#[derive(Debug)]
pub enum OrderManagerMessage {
    AddOrder(SpotOrder),
    RemoveOrder { order_id: String, price: u128, order_type: OrderType },
    ClearAndAddOrders(Vec<SpotOrder>),
}

/// The shards after message `m`.
pub open spec fn pool_after_message(
    v: Seq<ShardView>,
    rs: Seq<PriceTimeRange>,
    m: OrderManagerMessage,
) -> Seq<ShardView> {
    match m {
        OrderManagerMessage::AddOrder(o) => pool_after_add(v, rs, o),
        OrderManagerMessage::RemoveOrder { order_id, price, order_type } => pool_after_band_remove(
            v,
            rs,
            order_id@,
            price,
            order_type,
        ),
        OrderManagerMessage::ClearAndAddOrders(os) => pool_after_adds(empty_shards(v.len()), rs, os@),
    }
}

/// A removal asked by `m` keeps every level it touches.
pub open spec fn message_ok(v: Seq<ShardView>, rs: Seq<PriceTimeRange>, m: OrderManagerMessage) -> bool {
    match m {
        OrderManagerMessage::RemoveOrder { order_id, price, order_type } => pool_band_removal_ok(
            v,
            rs,
            order_id@,
            price,
            order_type,
        ),
        _ => true,
    }
}

/// Every listing of the pool's buys and of its sells together fits in a `usize`.
pub open spec fn total_fits(v: Seq<ShardView>) -> bool {
    forall|b: Seq<SpotOrder>, s: Seq<SpotOrder>|
        #[trigger] best_buys_of(v, b) && #[trigger] best_sells_of(v, s) ==> b.len() + s.len()
            <= usize::MAX
}

/// The orders of one indexer.
pub struct OrderManager {
    pub order_pool: ShardedOrderPool,
}

impl OrderManager {
    /// What each shard holds.
    #[verifier::inline]
    pub open spec fn shards(&self) -> Seq<ShardView> {
        self.order_pool.shard_views()
    }

    /// The shards' ranges.
    #[verifier::inline]
    pub open spec fn ranges(&self) -> Seq<PriceTimeRange> {
        self.order_pool.ranges()
    }

    /// A well-formed pool.
    #[verifier::inline]
    pub open spec fn wf(&self) -> bool {
        self.order_pool.wf()
    }

    /// An empty pool over the ranges counted back from `current_time`, in seconds.
    pub fn new(current_time: u64) -> (r: Self)
        ensures
            r.wf(),
            ranges_at(current_time, r.ranges()),
            r.shards() == empty_shards(800),
    {
        let ranges = generate_price_time_ranges(current_time);
        Self { order_pool: ShardedOrderPool::new(ranges) }
    }

    /// Applies a message.
    pub fn handle_message(&mut self, message: OrderManagerMessage)
        requires
            old(self).wf(),
            message_ok(old(self).shards(), old(self).ranges(), message),
        ensures
            final(self).wf(),
            final(self).ranges() == old(self).ranges(),
            final(self).shards() == pool_after_message(old(self).shards(), old(self).ranges(), message),
    {
        match message {
            OrderManagerMessage::AddOrder(order) => {
                self.order_pool.add_order(order);
            },
            OrderManagerMessage::RemoveOrder { order_id, price, order_type } => {
                self.order_pool.remove_order_by_price(&order_id, price, order_type);
            },
            OrderManagerMessage::ClearAndAddOrders(orders) => {
                self.clear_and_add_orders(orders);
            },
        }
    }

    /// Adds an order to the pool.
    pub fn add_order(&mut self, order: SpotOrder)
        requires
            old(self).wf(),
        ensures
            final(self).wf(),
            final(self).ranges() == old(self).ranges(),
            final(self).shards() == pool_after_add(old(self).shards(), old(self).ranges(), order),
    {
        self.order_pool.add_order(order);
    }

    /// Takes order `order_id` out of the level at `price`, in every shard whose band holds
    /// `price`.
    pub fn remove_order(&mut self, order_id: &str, price: u128, order_type: OrderType)
        requires
            old(self).wf(),
            pool_band_removal_ok(old(self).shards(), old(self).ranges(), order_id@, price, order_type),
        ensures
            final(self).wf(),
            final(self).ranges() == old(self).ranges(),
            final(self).shards() == pool_after_band_remove(
                old(self).shards(),
                old(self).ranges(),
                order_id@,
                price,
                order_type,
            ),
    {
        self.order_pool.remove_order_by_price(order_id, price, order_type);
    }

    /// Empties the pool, then adds `orders`, in order.
    pub fn clear_and_add_orders(&mut self, orders: Vec<SpotOrder>)
        requires
            old(self).wf(),
        ensures
            final(self).wf(),
            final(self).ranges() == old(self).ranges(),
            final(self).shards() == pool_after_adds(
                empty_shards(old(self).shards().len()),
                old(self).ranges(),
                orders@,
            ),
    {
        let ghost n = self.shards().len();
        let ghost rs = self.ranges();
        self.order_pool.clear_orders();
        let count = orders.len();
        let mut k: usize = 0;
        assert(orders@.take(0) =~= Seq::<SpotOrder>::empty());
        while k < count
            invariant
                count == orders@.len(),
                k <= count,
                self.wf(),
                self.ranges() == rs,
                self.shards() == pool_after_adds(empty_shards(n), rs, orders@.take(k as int)),
            decreases count - k,
        {
            assert(orders@.take(k + 1).drop_last() =~= orders@.take(k as int));
            self.order_pool.add_order(orders[k].clone());
            k = k + 1;
        }
        assert(orders@.take(count as int) =~= orders@);
    }

    /// The number of buy orders.
    pub fn get_buy_orders_count(&self) -> (r: usize)
        requires
            self.wf(),
        ensures
            exists|b: Seq<SpotOrder>| #[trigger] best_buys_of(self.shards(), b) && r == b.len(),
    {
        let buys = self.order_pool.get_best_buy_orders();
        assert(best_buys_of(self.shards(), buys@));
        buys.len()
    }

    /// The number of sell orders.
    pub fn get_sell_orders_count(&self) -> (r: usize)
        requires
            self.wf(),
        ensures
            exists|s: Seq<SpotOrder>| #[trigger] best_sells_of(self.shards(), s) && r == s.len(),
    {
        let sells = self.order_pool.get_best_sell_orders();
        assert(best_sells_of(self.shards(), sells@));
        sells.len()
    }

    /// The number of orders.
    pub fn get_total_orders_count(&self) -> (r: usize)
        requires
            self.wf(),
            total_fits(self.shards()),
        ensures
            exists|b: Seq<SpotOrder>, s: Seq<SpotOrder>|
                #[trigger] best_buys_of(self.shards(), b) && #[trigger] best_sells_of(self.shards(), s)
                    && r == b.len() + s.len(),
    {
        let buys = self.order_pool.get_best_buy_orders();
        let sells = self.order_pool.get_best_sell_orders();
        assert(best_buys_of(self.shards(), buys@) && best_sells_of(self.shards(), sells@));
        buys.len() + sells.len()
    }

    /// Empties the pool.
    pub fn clear_orders(&mut self)
        requires
            old(self).wf(),
        ensures
            final(self).wf(),
            final(self).ranges() == old(self).ranges(),
            final(self).shards() == empty_shards(old(self).shards().len()),
    {
        self.order_pool.clear_orders();
    }

    /// The orders of one side at `price`, over the shards whose band holds `price`.
    pub fn get_orders(&self, price: u128, order_type: OrderType) -> (r: Vec<SpotOrder>)
        requires
            self.wf(),
        ensures
            exists|ls: Seq<Seq<SpotOrder>>|
                #[trigger] band_listings(self.shards(), self.ranges(), price, order_type, ls) && r@
                    == ls.flatten(),
    {
        self.order_pool.get_orders_by_price(price, order_type)
    }

    /// Every buy order, highest price first.
    pub fn get_all_buy_orders(&self) -> (r: Vec<SpotOrder>)
        requires
            self.wf(),
        ensures
            best_buys_of(self.shards(), r@),
    {
        self.order_pool.get_best_buy_orders()
    }

    /// Every sell order, lowest price first.
    pub fn get_all_sell_orders(&self) -> (r: Vec<SpotOrder>)
        requires
            self.wf(),
        ensures
            best_sells_of(self.shards(), r@),
    {
        self.order_pool.get_best_sell_orders()
    }

    /// Takes out of the pool the orders whose ids are in `ids`.
    pub fn remove_matched_orders(&mut self, ids: &Vec<String>)
        requires
            old(self).wf(),
        ensures
            final(self).wf(),
            final(self).ranges() == old(self).ranges(),
            final(self).shards() == pool_without_ids(old(self).shards(), id_views(ids@).to_set()),
    {
        self.order_pool.remove_matched_orders(ids);
    }
}

} // verus!
