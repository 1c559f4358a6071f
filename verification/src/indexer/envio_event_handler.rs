//! Applying order events of the Envio feed to the book.
use crate::indexer::spot_order::{
    opt_order_type_named, order_type_from_str, order_type_named, LimitType, OrderStatus,
    OrderType, SpotOrder,
};
use crate::storage::matching_orders::MatchingOrders;
use crate::storage::order_book::{
    book_add, book_get, book_remove, book_update, book_wf, lemma_get_after_remove, lemma_get_after_update, lemma_get_found, BookState, OrderBook,
};
use crate::text::{parse_u128, parse_unsigned, str_eq};
use vstd::prelude::*;

verus! {

/// An order event as the Envio feed delivers it.
#[derive(Debug)]
pub struct EnvioOrderEvent {
    pub event_type: String,
    pub id: String,
    pub order_id: Option<String>,
    pub user: Option<String>,
    pub asset: Option<String>,
    pub amount: Option<u128>,
    pub price: Option<u128>,
    pub order_type: Option<String>,
    pub limit_type: Option<String>,
    pub timestamp: Option<String>,
}

/// The string fields of an event object of the Envio feed: for each key, the string the
/// object holds there, if it holds a string there.
#[derive(Debug)]
pub struct EnvioEventFields {
    pub id: Option<String>,
    pub order_id: Option<String>,
    pub user: Option<String>,
    pub asset: Option<String>,
    pub amount: Option<String>,
    pub price: Option<String>,
    pub order_type: Option<String>,
    pub limit_type: Option<String>,
    pub timestamp: Option<String>,
}

/// The time-in-force named by a string: `"FOK"`, `"IOC"`, `"GTC"` or `"MKT"`.
pub open spec fn limit_type_named(s: Seq<char>) -> Option<LimitType> {
    if s == "FOK"@ {
        Some(LimitType::FOK)
    } else if s == "IOC"@ {
        Some(LimitType::IOC)
    } else if s == "GTC"@ {
        Some(LimitType::GTC)
    } else if s == "MKT"@ {
        Some(LimitType::MKT)
    } else {
        None
    }
}

/// The time-in-force an event names.
pub open spec fn event_limit_type(e: EnvioOrderEvent) -> Option<LimitType> {
    match e.limit_type {
        Some(s) => limit_type_named(s@),
        None => None,
    }
}

/// An event carries everything an open order needs.
pub open spec fn event_makes_order(e: EnvioOrderEvent) -> bool {
    &&& e.price is Some
    &&& e.amount is Some
    &&& e.user is Some
    &&& e.limit_type is Some
    &&& opt_order_type_named(e.order_type) is Some
}

/// `o` is the order an open event creates at time `now`: it takes the event's order id,
/// or the event's own id when there is none.
pub open spec fn event_order(e: EnvioOrderEvent, now: u64, o: SpotOrder) -> bool {
    &&& o.id == (match e.order_id {
        Some(x) => x,
        None => e.id,
    })
    &&& e.user == Some(o.user)
    &&& (match e.asset {
        Some(a) => o.asset == a,
        None => o.asset@ == Seq::<char>::empty(),
    })
    &&& e.amount == Some(o.amount)
    &&& e.price == Some(o.price)
    &&& o.timestamp == now
    &&& opt_order_type_named(e.order_type) == Some(o.order_type)
    &&& o.limit_type == event_limit_type(e)
    &&& o.status == Some(OrderStatus::New)
}

/// The book after a trade of `amount` against order `id`.
pub open spec fn trade_effect(
    s: BookState,
    id: Seq<char>,
    amount: u128,
    order_type: Option<OrderType>,
    limit_type: Option<LimitType>,
) -> BookState {
    match (order_type, limit_type) {
        (Some(t), Some(LimitType::GTC)) => match book_get(s, id, t) {
            Some(o) => if o.amount > amount {
                book_update(
                    s,
                    SpotOrder {
                        amount: (o.amount - amount) as u128,
                        status: Some(OrderStatus::PartiallyMatched),
                        ..o
                    },
                )
            } else {
                book_remove(s, id, Some(t))
            },
            None => s,
        },
        (Some(t), Some(_)) => book_remove(s, id, Some(t)),
        _ => s,
    }
}

/// The book after an open event's order `o` arrives: an order already resting under its id
/// on its side takes the new amount, price, timestamp, time-in-force and status; otherwise
/// `o` is added.
pub open spec fn open_effect(s: BookState, o: SpotOrder) -> BookState {
    match book_get(s, o.id@, o.order_type) {
        Some(x) => book_update(
            s,
            SpotOrder {
                amount: o.amount,
                price: o.price,
                timestamp: o.timestamp,
                limit_type: o.limit_type,
                status: o.status,
                ..x
            },
        ),
        None => book_add(s, o),
    }
}

/// The book and matching set after an event, when open orders are stamped `now`.
pub open spec fn envio_event_effect(
    b: BookState,
    m: Set<Seq<char>>,
    e: EnvioOrderEvent,
    now: u64,
    b2: BookState,
    m2: Set<Seq<char>>,
) -> bool {
    if e.event_type@ == "OpenOrderEvent"@ {
        &&& m2 == m
        &&& if event_makes_order(e) {
            exists|o: SpotOrder| event_order(e, now, o) && b2 == open_effect(b, o)
        } else {
            b2 == b
        }
    } else if e.event_type@ == "TradeOrderEvent"@ {
        match e.order_id {
            Some(id) => {
                &&& m2 == m.remove(id@)
                &&& b2 == match e.amount {
                    Some(a) => trade_effect(
                        b,
                        id@,
                        a,
                        opt_order_type_named(e.order_type),
                        event_limit_type(e),
                    ),
                    None => b,
                }
            },
            None => b2 == b && m2 == m,
        }
    } else if e.event_type@ == "CancelOrderEvent"@ {
        match e.order_id {
            Some(id) => {
                &&& m2 == m.remove(id@)
                &&& b2 == book_remove(b, id@, opt_order_type_named(e.order_type))
            },
            None => b2 == b && m2 == m,
        }
    } else {
        b2 == b && m2 == m
    }
}

/// A decimal field read as `str::parse::<u128>` does, or nothing when absent or malformed.
pub open spec fn parsed_amount(s: Option<String>) -> Option<u128> {
    match s {
        Some(x) => match parse_unsigned(x@, u128::MAX as int) {
            Some(v) => Some(v as u128),
            None => None,
        },
        None => None,
    }
}

impl EnvioOrderEvent {
    /// The side the event names, if it names one.
    pub fn order_type_to_enum(&self) -> (r: Option<OrderType>)
        ensures
            r == opt_order_type_named(self.order_type),
    {
        match &self.order_type {
            Some(s) => order_type_from_str(s.as_str()),
            None => None,
        }
    }

    /// The time-in-force the event names, if it names `FOK`, `IOC`, `GTC` or `MKT`.
    pub fn limit_type_to_enum(&self) -> (r: Option<LimitType>)
        ensures
            r == event_limit_type(*self),
    {
        match &self.limit_type {
            Some(s) => {
                if str_eq(s.as_str(), "FOK") {
                    Some(LimitType::FOK)
                } else if str_eq(s.as_str(), "IOC") {
                    Some(LimitType::IOC)
                } else if str_eq(s.as_str(), "GTC") {
                    Some(LimitType::GTC)
                } else if str_eq(s.as_str(), "MKT") {
                    Some(LimitType::MKT)
                } else {
                    None
                }
            },
            None => None,
        }
    }
}

fn parse_opt_u128(s: &Option<String>) -> (r: Option<u128>)
    ensures
        r == parsed_amount(*s),
{
    match s {
        Some(x) => parse_u128(x.as_str()),
        None => None,
    }
}

fn clone_opt(s: &Option<String>) -> (r: Option<String>)
    ensures
        r == *s,
{
    match s {
        Some(x) => Some(x.clone()),
        None => None,
    }
}

/// `e` is the event of type `kind` built from the string fields `f`.
pub open spec fn event_parsed(f: EnvioEventFields, kind: Seq<char>, e: EnvioOrderEvent) -> bool {
    &&& e.event_type@ == kind
    &&& Some(e.id) == f.id
    &&& e.order_id == f.order_id
    &&& e.user == f.user
    &&& e.asset == f.asset
    &&& e.amount == parsed_amount(f.amount)
    &&& e.price == parsed_amount(f.price)
    &&& e.order_type == f.order_type
    &&& e.limit_type == f.limit_type
    &&& e.timestamp == f.timestamp
}

/// Builds an event of type `event_type` from the string fields of an event object: no
/// event without an id; amounts and prices that are absent or not decimal are left out.
pub fn parse_envio_event(json: &EnvioEventFields, event_type: &str) -> (r: Option<EnvioOrderEvent>)
    ensures
        r is Some <==> json.id is Some,
        r matches Some(e) ==> event_parsed(*json, event_type@, e),
{
    let id = match &json.id {
        Some(x) => x.clone(),
        None => {
            return None;
        },
    };
    Some(
        EnvioOrderEvent {
            event_type: event_type.to_owned(),
            id,
            order_id: clone_opt(&json.order_id),
            user: clone_opt(&json.user),
            asset: clone_opt(&json.asset),
            amount: parse_opt_u128(&json.amount),
            price: parse_opt_u128(&json.price),
            order_type: clone_opt(&json.order_type),
            limit_type: clone_opt(&json.limit_type),
            timestamp: clone_opt(&json.timestamp),
        },
    )
}

/// The order an open event creates, stamped `now_millis`.
fn create_new_order_from_event(event: &EnvioOrderEvent, now_millis: u64) -> (r: Option<SpotOrder>)
    ensures
        r is Some <==> event_makes_order(*event),
        r matches Some(o) ==> event_order(*event, now_millis, o),
{
    match (event.price, event.amount, &event.order_type, &event.limit_type, &event.user) {
        (Some(price), Some(amount), Some(order_type), Some(_limit_type), Some(user)) => {
            let real_order_id = match &event.order_id {
                Some(oid) => oid.clone(),
                None => event.id.clone(),
            };
            let order_type_enum = match order_type_from_str(order_type.as_str()) {
                Some(t) => t,
                None => {
                    return None;
                },
            };
            let asset = match &event.asset {
                Some(a) => a.clone(),
                None => String::new(),
            };
            Some(
                SpotOrder {
                    id: real_order_id,
                    user: user.clone(),
                    asset,
                    amount,
                    price,
                    timestamp: now_millis,
                    order_type: order_type_enum,
                    limit_type: event.limit_type_to_enum(),
                    status: Some(OrderStatus::New),
                },
            )
        },
        _ => None,
    }
}

/// Settles a trade of `trade_amount` against order `order_id`: a good-till-cancelled order
/// is reduced and marked partially matched while some of it remains, and removed once
/// filled; an order of another time-in-force is removed. Without a side and a
/// time-in-force nothing changes.
fn process_trade(
    order_book: &mut OrderBook,
    order_id: &str,
    trade_amount: u128,
    order_type: Option<OrderType>,
    limit_type: Option<LimitType>,
)
    requires
        old(order_book).wf(),
    ensures
        final(order_book).wf(),
        final(order_book)@ == trade_effect(
            old(order_book)@,
            order_id@,
            trade_amount,
            order_type,
            limit_type,
        ),
{
    match (order_type, limit_type) {
        (Some(ot), Some(lt)) => match lt {
            LimitType::GTC => {
                match order_book.get_order(order_id, ot) {
                    Some(mut order) => {
                        if order.amount > trade_amount {
                            order.amount = order.amount - trade_amount;
                            order.status = Some(OrderStatus::PartiallyMatched);
                            order_book.update_order(order.clone());
                        } else {
                            order_book.remove_order(order_id, Some(ot));
                        }
                    },
                    None => {},
                }
            },
            _ => {
                order_book.remove_order(order_id, Some(ot));
            },
        },
        _ => {},
    }
}

/// Applies one event to the book and the matching set, stamping new orders `now_millis`.
pub fn handle_envio_event(
    order_book: &mut OrderBook,
    matching_orders: &mut MatchingOrders,
    event: EnvioOrderEvent,
    now_millis: u64,
)
    requires
        old(order_book).wf(),
        old(matching_orders).wf(),
    ensures
        final(order_book).wf(),
        final(matching_orders).wf(),
        envio_event_effect(
            old(order_book)@,
            old(matching_orders)@,
            event,
            now_millis,
            final(order_book)@,
            final(matching_orders)@,
        ),
{
    let ghost b0 = order_book@;
    if str_eq(event.event_type.as_str(), "OpenOrderEvent") {
        match create_new_order_from_event(&event, now_millis) {
            Some(order) => {
                let ghost o = order;
                match order_book.get_order(order.id.as_str(), order.order_type) {
                    Some(existing_order) => {
                        let mut updated_order = existing_order.clone();
                        updated_order.amount = order.amount;
                        updated_order.price = order.price;
                        updated_order.timestamp = order.timestamp;
                        updated_order.limit_type = order.limit_type;
                        updated_order.status = order.status;
                        order_book.update_order(updated_order);
                    },
                    None => {
                        order_book.add_order(order);
                    },
                }
                assert(event_order(event, now_millis, o) && order_book@ == open_effect(b0, o));
            },
            None => {},
        }
    } else if str_eq(event.event_type.as_str(), "TradeOrderEvent") {
        match &event.order_id {
            Some(order_id) => {
                matching_orders.remove(order_id.as_str());
                match event.amount {
                    Some(match_size) => {
                        let o_type = event.order_type_to_enum();
                        let l_type = event.limit_type_to_enum();
                        process_trade(order_book, order_id.as_str(), match_size, o_type, l_type);
                    },
                    None => {},
                }
            },
            None => {},
        }
    } else if str_eq(event.event_type.as_str(), "CancelOrderEvent") {
        match &event.order_id {
            Some(order_id) => {
                matching_orders.remove(order_id.as_str());
                order_book.remove_order(order_id.as_str(), event.order_type_to_enum());
            },
            None => {},
        }
    }
}

/// A trade against a resting good-till-cancelled order: an order larger than the amount
/// traded stays, found under its id with the traded amount taken off and its status
/// partially matched; any other leaves its side.
pub proof fn lemma_gtc_trade(s: BookState, id: Seq<char>, amount: u128, t: OrderType)
    requires
        book_wf(s),
        book_get(s, id, t) is Some,
    ensures
        ({
            let o = book_get(s, id, t)->0;
            let after = trade_effect(s, id, amount, Some(t), Some(LimitType::GTC));
            &&& o.amount > amount ==> book_get(after, id, t) == Some(
                SpotOrder { amount: (o.amount - amount) as u128, status: Some(OrderStatus::PartiallyMatched), ..o },
            )
            &&& o.amount <= amount ==> book_get(after, id, t) is None
        }),
{
    let o = book_get(s, id, t)->0;
    lemma_get_found(s, id, t);
    if o.amount > amount {
        lemma_get_after_update(
            s,
            SpotOrder { amount: (o.amount - amount) as u128, status: Some(OrderStatus::PartiallyMatched), ..o },
        );
    } else {
        lemma_get_after_remove(s, id, Some(t), t);
    }
}

} // verus!
