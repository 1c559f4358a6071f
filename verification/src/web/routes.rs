//! What the HTTP routes answer, computed from the book.
use crate::indexer::spot_order::{OrderType, SpotOrder};
use crate::storage::order_book::{book_range, OrderBook};
use crate::text::str_eq;
use vstd::prelude::*;

verus! {

/// The orders of one side.
#[derive(Debug)]
pub struct OrdersResponse {
    pub orders: Vec<SpotOrder>,
}

/// The indexers the service can read from.
#[derive(Debug, Clone, Copy, PartialEq, Eq, Structural)]
pub enum Indexer {
    Envio,
    Subsquid,
    Pangea,
}

/// Best prices and the spread between them.
#[derive(Debug, PartialEq, Eq, Structural)]
pub struct SpreadResponse {
    pub buy: Option<u128>,
    pub sell: Option<u128>,
    pub spread: Option<i128>,
}

/// Number of resting orders on each side.
#[derive(Debug, PartialEq, Eq, Structural)]
pub struct OrderCounts {
    pub buy_orders: usize,
    pub sell_orders: usize,
}

/// The highest price among orders.
pub open spec fn max_price(s: Seq<SpotOrder>) -> Option<u128>
    decreases s.len(),
{
    if s.len() == 0 {
        None
    } else {
        match max_price(s.drop_last()) {
            Some(m) => Some(if s.last().price > m { s.last().price } else { m }),
            None => Some(s.last().price),
        }
    }
}

/// The lowest price among orders.
pub open spec fn min_price(s: Seq<SpotOrder>) -> Option<u128>
    decreases s.len(),
{
    if s.len() == 0 {
        None
    } else {
        match min_price(s.drop_last()) {
            Some(m) => Some(if s.last().price < m { s.last().price } else { m }),
            None => Some(s.last().price),
        }
    }
}

/// A price taken as `i128` by `as`: prices above `i128::MAX` wrap around to negatives.
pub open spec fn as_i128(p: u128) -> int {
    if p <= i128::MAX {
        p as int
    } else {
        p - 0x1_0000_0000_0000_0000_0000_0000_0000_0000int
    }
}

/// The spread: lowest sell price less highest buy price, each taken as `i128`.
pub open spec fn spread_of(max_buy: Option<u128>, min_sell: Option<u128>) -> Option<int> {
    match (max_buy, min_sell) {
        (Some(b), Some(s)) => Some(as_i128(s) - as_i128(b)),
        _ => None,
    }
}

/// All buy orders of the book.
pub open spec fn all_buys(order_book: &OrderBook) -> Seq<SpotOrder> {
    book_range(order_book@, 0, u128::MAX, OrderType::Buy)
}

/// All sell orders of the book.
pub open spec fn all_sells(order_book: &OrderBook) -> Seq<SpotOrder> {
    book_range(order_book@, 0, u128::MAX, OrderType::Sell)
}

/// The spread of the book fits in an `i128`.
pub open spec fn spread_fits(order_book: &OrderBook) -> bool {
    match spread_of(max_price(all_buys(order_book)), min_price(all_sells(order_book))) {
        Some(v) => i128::MIN <= v <= i128::MAX,
        None => true,
    }
}

impl Indexer {
    /// The indexer's name in settings.
    pub open spec fn name(&self) -> Seq<char> {
        match self {
            Indexer::Envio => "envio"@,
            Indexer::Subsquid => "subsquid"@,
            Indexer::Pangea => "superchain"@,
        }
    }

    /// The indexer's name in settings.
    pub fn as_str(&self) -> (r: &'static str)
        ensures
            r@ == self.name(),
    {
        match self {
            Indexer::Envio => "envio",
            Indexer::Subsquid => "subsquid",
            Indexer::Pangea => "superchain",
        }
    }

    /// Every indexer.
    pub fn all() -> (r: Vec<Indexer>)
        ensures
            r@ == seq![Indexer::Envio, Indexer::Subsquid, Indexer::Pangea],
    {
        let r = vec![Indexer::Envio, Indexer::Subsquid, Indexer::Pangea];
        assert(r@ =~= seq![Indexer::Envio, Indexer::Subsquid, Indexer::Pangea]);
        r
    }

    /// Reads a route parameter: `Envio`, `Subsquid` or `Pangea`; any other text is refused
    /// and handed back.
    pub fn from_param(param: &str) -> (r: Result<Indexer, &str>)
        ensures
            r == (if param@ == "Envio"@ {
                Ok::<Indexer, &str>(Indexer::Envio)
            } else if param@ == "Subsquid"@ {
                Ok(Indexer::Subsquid)
            } else if param@ == "Pangea"@ {
                Ok(Indexer::Pangea)
            } else {
                Err(param)
            }),
    {
        if str_eq(param, "Envio") {
            Ok(Indexer::Envio)
        } else if str_eq(param, "Subsquid") {
            Ok(Indexer::Subsquid)
        } else if str_eq(param, "Pangea") {
            Ok(Indexer::Pangea)
        } else {
            Err(param)
        }
    }
}

/// The highest price of a list of orders.
pub fn max_order_price(orders: &Vec<SpotOrder>) -> (r: Option<u128>)
    ensures
        r == max_price(orders@),
{
    let n = orders.len();
    let mut best: Option<u128> = None;
    let mut i: usize = 0;
    while i < n
        invariant
            n == orders@.len(),
            i <= n,
            best == max_price(orders@.take(i as int)),
        decreases n - i,
    {
        assert(orders@.take(i + 1).drop_last() =~= orders@.take(i as int));
        let p = orders[i].price;
        best = match best {
            Some(m) => Some(if p > m { p } else { m }),
            None => Some(p),
        };
        i = i + 1;
    }
    assert(orders@.take(n as int) =~= orders@);
    best
}

/// The lowest price of a list of orders.
pub fn min_order_price(orders: &Vec<SpotOrder>) -> (r: Option<u128>)
    ensures
        r == min_price(orders@),
{
    let n = orders.len();
    let mut best: Option<u128> = None;
    let mut i: usize = 0;
    while i < n
        invariant
            n == orders@.len(),
            i <= n,
            best == min_price(orders@.take(i as int)),
        decreases n - i,
    {
        assert(orders@.take(i + 1).drop_last() =~= orders@.take(i as int));
        let p = orders[i].price;
        best = match best {
            Some(m) => Some(if p < m { p } else { m }),
            None => Some(p),
        };
        i = i + 1;
    }
    assert(orders@.take(n as int) =~= orders@);
    best
}

fn wrap_to_i128(p: u128) -> (r: i128)
    ensures
        r as int == as_i128(p),
{
    if p <= i128::MAX as u128 {
        p as i128
    } else {
        let q: u128 = p - 0x8000_0000_0000_0000_0000_0000_0000_0000u128;
        (q as i128) + i128::MIN
    }
}

/// The spread between a highest buy and a lowest sell price, when both exist.
pub fn compute_spread(max_buy: Option<u128>, min_sell: Option<u128>) -> (r: Option<i128>)
    requires
        spread_of(max_buy, min_sell) matches Some(v) ==> i128::MIN <= v <= i128::MAX,
    ensures
        match spread_of(max_buy, min_sell) {
            Some(v) => r == Some(v as i128),
            None => r is None,
        },
{
    match (max_buy, min_sell) {
        (Some(b), Some(s)) => Some(wrap_to_i128(s) - wrap_to_i128(b)),
        _ => None,
    }
}

/// Every buy order, in ascending price.
pub fn get_buy_orders(order_book: &OrderBook) -> (r: OrdersResponse)
    ensures
        r.orders@ == all_buys(order_book),
{
    OrdersResponse { orders: order_book.get_orders_in_range(0, u128::MAX, OrderType::Buy) }
}

/// Every sell order, in ascending price.
pub fn get_sell_orders(order_book: &OrderBook) -> (r: OrdersResponse)
    ensures
        r.orders@ == all_sells(order_book),
{
    OrdersResponse { orders: order_book.get_orders_in_range(0, u128::MAX, OrderType::Sell) }
}

/// The highest buy price, the lowest sell price, and the spread between them.
pub fn get_indexer_spread(order_book: &OrderBook) -> (r: SpreadResponse)
    requires
        spread_fits(order_book),
    ensures
        r.buy == max_price(all_buys(order_book)),
        r.sell == min_price(all_sells(order_book)),
        match spread_of(r.buy, r.sell) {
            Some(v) => r.spread == Some(v as i128),
            None => r.spread is None,
        },
{
    let buy_orders = order_book.get_orders_in_range(0, u128::MAX, OrderType::Buy);
    let sell_orders = order_book.get_orders_in_range(0, u128::MAX, OrderType::Sell);
    let max_buy_price = max_order_price(&buy_orders);
    let min_sell_price = min_order_price(&sell_orders);
    let spread = compute_spread(max_buy_price, min_sell_price);
    SpreadResponse { buy: max_buy_price, sell: min_sell_price, spread }
}

/// How many orders rest on each side.
pub fn get_orders_count(order_book: &OrderBook) -> (r: OrderCounts)
    ensures
        r.buy_orders == all_buys(order_book).len(),
        r.sell_orders == all_sells(order_book).len(),
{
    let buy_orders = order_book.get_orders_in_range(0, u128::MAX, OrderType::Buy);
    let sell_orders = order_book.get_orders_in_range(0, u128::MAX, OrderType::Sell);
    OrderCounts { buy_orders: buy_orders.len(), sell_orders: sell_orders.len() }
}

} // verus!
