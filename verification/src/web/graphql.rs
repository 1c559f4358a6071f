//! What the GraphQL queries answer, computed from the book.
use crate::indexer::spot_order::{OrderStatus, OrderType, SpotOrder};
use crate::storage::order_book::OrderBook;
use crate::text::{decimal_digits, i128_to_decimal, signed_decimal, u128_to_decimal};
use crate::web::routes::{
    all_buys, all_sells, compute_spread, max_order_price, max_price, min_order_price, min_price,
    spread_fits, spread_of,
};
use vstd::prelude::*;

verus! {

/// An order as the GraphQL schema shows it: amounts and prices as decimal text.
#[derive(Debug)]
pub struct Order {
    pub id: String,
    pub user: String,
    pub asset: String,
    pub amount: String,
    pub price: String,
    pub timestamp: u64,
    pub order_type: String,
    pub status: Option<String>,
}

/// The root of the GraphQL queries.
pub struct Query;

/// The name `Debug` gives an order status.
pub open spec fn status_name(s: OrderStatus) -> Seq<char> {
    match s {
        OrderStatus::New => "New"@,
        OrderStatus::PartiallyMatched => "PartiallyMatched"@,
        OrderStatus::Matched => "Matched"@,
        OrderStatus::Cancelled => "Cancelled"@,
        OrderStatus::Failed => "Failed"@,
    }
}

/// The name of a side in the schema.
pub open spec fn side_name(t: OrderType) -> Seq<char> {
    match t {
        OrderType::Buy => "Buy"@,
        OrderType::Sell => "Sell"@,
    }
}

/// `g` shows order `o` as an order of side `t`.
pub open spec fn shows_order(o: SpotOrder, t: OrderType, g: Order) -> bool {
    &&& g.id == o.id
    &&& g.user == o.user
    &&& g.asset == o.asset
    &&& g.amount@ == decimal_digits(o.amount as nat)
    &&& g.price@ == decimal_digits(o.price as nat)
    &&& g.timestamp == o.timestamp
    &&& g.order_type@ == side_name(t)
    &&& match o.status {
        Some(s) => g.status matches Some(x) && x@ == status_name(s),
        None => g.status is None,
    }
}

fn status_str(s: OrderStatus) -> (r: &'static str)
    ensures
        r@ == status_name(s),
{
    match s {
        OrderStatus::New => "New",
        OrderStatus::PartiallyMatched => "PartiallyMatched",
        OrderStatus::Matched => "Matched",
        OrderStatus::Cancelled => "Cancelled",
        OrderStatus::Failed => "Failed",
    }
}

fn show_orders(orders: Vec<SpotOrder>, t: OrderType) -> (r: Vec<Order>)
    ensures
        r@.len() == orders@.len(),
        forall|i: int| 0 <= i < orders@.len() ==> shows_order(orders@[i], t, #[trigger] r@[i]),
{
    let name = match t {
        OrderType::Buy => "Buy",
        OrderType::Sell => "Sell",
    };
    let mut r: Vec<Order> = Vec::new();
    let n = orders.len();
    let mut i: usize = 0;
    while i < n
        invariant
            n == orders@.len(),
            name@ == side_name(t),
            i <= n,
            r@.len() == i,
            forall|k: int| 0 <= k < i ==> shows_order(orders@[k], t, #[trigger] r@[k]),
        decreases n - i,
    {
        let o = &orders[i];
        let status = match o.status {
            Some(s) => Some(status_str(s).to_owned()),
            None => None,
        };
        r.push(
            Order {
                id: o.id.clone(),
                user: o.user.clone(),
                asset: o.asset.clone(),
                amount: u128_to_decimal(o.amount),
                price: u128_to_decimal(o.price),
                timestamp: o.timestamp,
                order_type: name.to_owned(),
                status,
            },
        );
        i = i + 1;
    }
    r
}

impl Query {
    /// Every buy order, in ascending price.
    pub fn buy_orders(&self, order_book: &OrderBook) -> (r: Vec<Order>)
        ensures
            r@.len() == all_buys(order_book).len(),
            forall|i: int|
                0 <= i < r@.len() ==> shows_order(all_buys(order_book)[i], OrderType::Buy, #[trigger] r@[i]),
    {
        show_orders(order_book.get_orders_in_range(0, u128::MAX, OrderType::Buy), OrderType::Buy)
    }

    /// Every sell order, in ascending price.
    pub fn sell_orders(&self, order_book: &OrderBook) -> (r: Vec<Order>)
        ensures
            r@.len() == all_sells(order_book).len(),
            forall|i: int|
                0 <= i < r@.len() ==> shows_order(all_sells(order_book)[i], OrderType::Sell, #[trigger] r@[i]),
    {
        show_orders(order_book.get_orders_in_range(0, u128::MAX, OrderType::Sell), OrderType::Sell)
    }

    /// The spread as decimal text, when both sides hold an order.
    pub fn spread(&self, order_book: &OrderBook) -> (r: Option<String>)
        requires
            spread_fits(order_book),
        ensures
            match spread_of(max_price(all_buys(order_book)), min_price(all_sells(order_book))) {
                Some(v) => r matches Some(x) && x@ == signed_decimal(v),
                None => r is None,
            },
    {
        let buy_orders = order_book.get_orders_in_range(0, u128::MAX, OrderType::Buy);
        let sell_orders = order_book.get_orders_in_range(0, u128::MAX, OrderType::Sell);
        let max_buy_price = max_order_price(&buy_orders);
        let min_sell_price = min_order_price(&sell_orders);
        match compute_spread(max_buy_price, min_sell_price) {
            Some(v) => Some(i128_to_decimal(v)),
            None => None,
        }
    }
}

} // verus!
