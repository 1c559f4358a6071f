//! Applying order events of the Pangea feed to the book: a first handler, whose trades
//! only settle good-till-cancelled orders partially.
use crate::indexer::spot_order::{
    opt_order_type_named, order_type_from_str, order_type_named, LimitType, OrderStatus,
    OrderType, SpotOrder,
};
use crate::storage::matching_orders::MatchingOrders;
use crate::storage::order_book::{
    book_add, book_get, book_remove, book_update, book_wf, lemma_get_after_remove, lemma_get_after_update, lemma_get_found, BookState, OrderBook,
};
use crate::text::str_eq;
use vstd::prelude::*;

verus! {

/// An order event as the Pangea feed delivers it.
#[derive(Debug)]
pub struct PangeaOrderEvent {
    pub chain: u64,
    pub block_number: i64,
    pub block_hash: String,
    pub transaction_hash: String,
    pub transaction_index: u64,
    pub log_index: u64,
    pub market_id: String,
    pub order_id: String,
    pub event_type: Option<String>,
    pub asset: Option<String>,
    pub amount: Option<u128>,
    pub asset_type: Option<String>,
    pub order_type: Option<String>,
    pub price: Option<u128>,
    pub user: Option<String>,
    pub order_matcher: Option<String>,
    pub owner: Option<String>,
    pub limit_type: Option<String>,
}

/// The time-in-force named by a string: `"FOK"`, `"IOC"` or `"GTC"`.
pub open spec fn limit_type_named(s: Seq<char>) -> Option<LimitType> {
    if s == "FOK"@ {
        Some(LimitType::FOK)
    } else if s == "IOC"@ {
        Some(LimitType::IOC)
    } else if s == "GTC"@ {
        Some(LimitType::GTC)
    } else {
        None
    }
}

/// The time-in-force an event names.
pub open spec fn event_limit_type(e: PangeaOrderEvent) -> Option<LimitType> {
    match e.limit_type {
        Some(s) => limit_type_named(s@),
        None => None,
    }
}

/// An event carries everything an open order needs.
pub open spec fn event_makes_order(e: PangeaOrderEvent) -> bool {
    &&& e.price is Some
    &&& e.amount is Some
    &&& e.user is Some
    &&& opt_order_type_named(e.order_type) is Some
}

/// `o` is the order an open event creates at time `now`.
pub open spec fn event_order(e: PangeaOrderEvent, now: u64, o: SpotOrder) -> bool {
    &&& o.id == e.order_id
    &&& e.user == Some(o.user)
    &&& (match e.asset {
        Some(a) => o.asset == a,
        None => o.asset@ == Seq::<char>::empty(),
    })
    &&& e.amount == Some(o.amount)
    &&& e.price == Some(o.price)
    &&& o.timestamp == now
    &&& opt_order_type_named(e.order_type) == Some(o.order_type)
    &&& o.limit_type == event_limit_type(e)
    &&& o.status == Some(OrderStatus::New)
}

/// The book after a trade of `amount` against order `id`.
pub open spec fn trade_effect(
    s: BookState,
    id: Seq<char>,
    amount: u128,
    order_type: Option<OrderType>,
    limit_type: Option<LimitType>,
) -> BookState {
    match (order_type, limit_type) {
        (Some(t), Some(LimitType::GTC)) => match book_get(s, id, t) {
            Some(o) => if o.amount > amount {
                book_update(
                    s,
                    SpotOrder {
                        amount: (o.amount - amount) as u128,
                        status: Some(OrderStatus::PartiallyMatched),
                        ..o
                    },
                )
            } else {
                book_remove(s, id, Some(t))
            },
            None => s,
        },
        (Some(t), Some(_)) => book_remove(s, id, Some(t)),
        _ => s,
    }
}

/// The book and matching set after an event, when open orders are stamped `now`.
pub open spec fn order_event_effect(
    b: BookState,
    m: Set<Seq<char>>,
    e: PangeaOrderEvent,
    now: u64,
    b2: BookState,
    m2: Set<Seq<char>>,
) -> bool {
    match e.event_type {
        Some(t) => if t@ == "Open"@ {
            &&& m2 == m
            &&& if event_makes_order(e) {
                exists|o: SpotOrder| event_order(e, now, o) && b2 == book_add(b, o)
            } else {
                b2 == b
            }
        } else if t@ == "Trade"@ {
            &&& m2 == m.remove(e.order_id@)
            &&& b2 == match e.amount {
                Some(a) => trade_effect(
                    b,
                    e.order_id@,
                    a,
                    opt_order_type_named(e.order_type),
                    event_limit_type(e),
                ),
                None => b,
            }
        } else if t@ == "Cancel"@ {
            &&& m2 == m.remove(e.order_id@)
            &&& b2 == book_remove(b, e.order_id@, opt_order_type_named(e.order_type))
        } else {
            b2 == b && m2 == m
        },
        None => b2 == b && m2 == m,
    }
}

impl PangeaOrderEvent {
    /// The side the event names, if it names one.
    pub fn order_type_to_enum(&self) -> (r: Option<OrderType>)
        ensures
            r == opt_order_type_named(self.order_type),
    {
        match &self.order_type {
            Some(s) => order_type_from_str(s.as_str()),
            None => None,
        }
    }

    /// The time-in-force the event names, if it names `FOK`, `IOC` or `GTC`.
    pub fn limit_type_to_enum(&self) -> (r: Option<LimitType>)
        ensures
            r == event_limit_type(*self),
    {
        match &self.limit_type {
            Some(s) => {
                if str_eq(s.as_str(), "FOK") {
                    Some(LimitType::FOK)
                } else if str_eq(s.as_str(), "IOC") {
                    Some(LimitType::IOC)
                } else if str_eq(s.as_str(), "GTC") {
                    Some(LimitType::GTC)
                } else {
                    None
                }
            },
            None => None,
        }
    }
}

/// The order an open event creates, stamped `now_millis`.
fn create_new_order_from_event(event: &PangeaOrderEvent, now_millis: u64) -> (r: Option<SpotOrder>)
    ensures
        r is Some <==> event_makes_order(*event),
        r matches Some(o) ==> event_order(*event, now_millis, o),
{
    match (event.price, event.amount, &event.order_type, &event.user) {
        (Some(price), Some(amount), Some(order_type), Some(user)) => {
            let order_type_enum = match order_type_from_str(order_type.as_str()) {
                Some(t) => t,
                None => {
                    return None;
                },
            };
            let asset = match &event.asset {
                Some(a) => a.clone(),
                None => String::new(),
            };
            Some(
                SpotOrder {
                    id: event.order_id.clone(),
                    user: user.clone(),
                    asset,
                    amount,
                    price,
                    timestamp: now_millis,
                    order_type: order_type_enum,
                    limit_type: event.limit_type_to_enum(),
                    status: Some(OrderStatus::New),
                },
            )
        },
        _ => None,
    }
}

/// Settles a trade of `trade_amount` against order `order_id`: a good-till-cancelled order
/// is reduced and marked partially matched while some of it remains, and removed once
/// filled; an order of another time-in-force is removed. Without a side and a
/// time-in-force nothing changes.
pub fn process_trade(
    order_book: &mut OrderBook,
    order_id: &str,
    trade_amount: u128,
    order_type: Option<OrderType>,
    limit_type: Option<LimitType>,
)
    requires
        old(order_book).wf(),
    ensures
        final(order_book).wf(),
        final(order_book)@ == trade_effect(
            old(order_book)@,
            order_id@,
            trade_amount,
            order_type,
            limit_type,
        ),
{
    match (order_type, limit_type) {
        (Some(ot), Some(lt)) => match lt {
            LimitType::GTC => {
                match order_book.get_order(order_id, ot) {
                    Some(mut order) => {
                        if order.amount > trade_amount {
                            order.amount = order.amount - trade_amount;
                            order.status = Some(OrderStatus::PartiallyMatched);
                            order_book.update_order(order.clone());
                        } else {
                            order_book.remove_order(order_id, Some(ot));
                        }
                    },
                    None => {},
                }
            },
            _ => {
                order_book.remove_order(order_id, Some(ot));
            },
        },
        _ => {},
    }
}

/// Applies one event to the book and the matching set, stamping new orders `now_millis`.
pub fn handle_order_event(
    order_book: &mut OrderBook,
    matching_orders: &mut MatchingOrders,
    event: PangeaOrderEvent,
    now_millis: u64,
)
    requires
        old(order_book).wf(),
        old(matching_orders).wf(),
    ensures
        final(order_book).wf(),
        final(matching_orders).wf(),
        order_event_effect(
            old(order_book)@,
            old(matching_orders)@,
            event,
            now_millis,
            final(order_book)@,
            final(matching_orders)@,
        ),
{
    match &event.event_type {
        Some(event_type) => {
            if str_eq(event_type.as_str(), "Open") {
                match create_new_order_from_event(&event, now_millis) {
                    Some(order) => {
                        order_book.add_order(order);
                    },
                    None => {},
                }
            } else if str_eq(event_type.as_str(), "Trade") {
                matching_orders.remove(event.order_id.as_str());
                match event.amount {
                    Some(match_size) => {
                        let o_type = event.order_type_to_enum();
                        let l_type = event.limit_type_to_enum();
                        process_trade(order_book, event.order_id.as_str(), match_size, o_type, l_type);
                    },
                    None => {},
                }
            } else if str_eq(event_type.as_str(), "Cancel") {
                matching_orders.remove(event.order_id.as_str());
                order_book.remove_order(event.order_id.as_str(), event.order_type_to_enum());
            }
        },
        None => {},
    }
}

/// A trade against a resting good-till-cancelled order: an order larger than the amount
/// traded stays, found under its id with the traded amount taken off and its status
/// partially matched; any other leaves its side.
pub proof fn lemma_gtc_trade(s: BookState, id: Seq<char>, amount: u128, t: OrderType)
    requires
        book_wf(s),
        book_get(s, id, t) is Some,
    ensures
        ({
            let o = book_get(s, id, t)->0;
            let after = trade_effect(s, id, amount, Some(t), Some(LimitType::GTC));
            &&& o.amount > amount ==> book_get(after, id, t) == Some(
                SpotOrder { amount: (o.amount - amount) as u128, status: Some(OrderStatus::PartiallyMatched), ..o },
            )
            &&& o.amount <= amount ==> book_get(after, id, t) is None
        }),
{
    let o = book_get(s, id, t)->0;
    lemma_get_found(s, id, t);
    if o.amount > amount {
        lemma_get_after_update(
            s,
            SpotOrder { amount: (o.amount - amount) as u128, status: Some(OrderStatus::PartiallyMatched), ..o },
        );
    } else {
        lemma_get_after_remove(s, id, Some(t), t);
    }
}

} // verus!
