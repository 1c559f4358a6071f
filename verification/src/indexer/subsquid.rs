//! The Subsquid indexer: the messages it is sent, what each of its text messages asks for,
//! and the orders read from them.
use crate::indexer::spot_order::{OrderStatus, OrderType, SpotOrder};
use crate::json::{graphql_ws_message, graphql_ws_message_text};
use crate::subscription::subsquid::{format_graphql_subscription, limit_or_default, active_order_list, SUBSCRIPTION_HEAD, SUBSCRIPTION_LIMIT, SUBSCRIPTION_TAIL};
use crate::text::{contains_substring, parse_u128, parse_u64, parse_unsigned, str_contains, str_eq};
use vstd::prelude::*;
use vstd::string::*;

verus! {

/// The message opening a connection.
pub const CONNECTION_INIT: &'static str = "{\"type\": \"connection_init\", \"payload\": {}}";

/// What a text message holds when the server accepts the connection.
pub const CONNECTION_ACK_MARK: &'static str = "\"type\":\"connection_ack\"";

/// What a text message holds when it carries subscription data.
pub const NEXT_MARK: &'static str = "\"type\":\"next\"";

/// What a text message asks for: subscribing to the orders, once the connection is
/// accepted, and reading the orders it carries.
#[derive(Debug, PartialEq, Eq, Clone, Copy, Structural)]
pub struct SubsquidTextActions {
    pub subscribe: bool,
    pub read_orders: bool,
}

/// What the text message `text` asks for.
pub fn classify_subsquid_text(text: &str) -> (r: SubsquidTextActions)
    ensures
        r.subscribe == contains_substring(text@, CONNECTION_ACK_MARK@),
        r.read_orders == contains_substring(text@, NEXT_MARK@),
{
    SubsquidTextActions {
        subscribe: str_contains(text, CONNECTION_ACK_MARK),
        read_orders: str_contains(text, NEXT_MARK),
    }
}

/// The id of the subscription to a side: the side's number, `0` for buys, `1` for sells.
pub open spec fn subscription_id(order_type: OrderType) -> Seq<char> {
    match order_type {
        OrderType::Buy => "0"@,
        OrderType::Sell => "1"@,
    }
}

/// The query text subscribing to the active orders of a side.
pub open spec fn subscription_query(order_type: OrderType, limit: Option<Seq<char>>) -> Seq<char> {
    SUBSCRIPTION_HEAD@ + active_order_list(order_type) + SUBSCRIPTION_LIMIT@ + limit_or_default(limit)
        + SUBSCRIPTION_TAIL@
}

/// The message subscribing to the active orders of a side, at most `limit` of them (ten when
/// unset).
pub fn subscription_message(order_type: OrderType, limit: Option<&str>) -> (r: String)
    ensures
        r@ == graphql_ws_message_text(
            subscription_id(order_type),
            "subscribe"@,
            subscription_query(
                order_type,
                match limit {
                    Some(l) => Some(l@),
                    None => None,
                },
            ),
        ),
{
    let query = format_graphql_subscription(order_type, limit);
    let id = match order_type {
        OrderType::Buy => "0",
        OrderType::Sell => "1",
    };
    proof {
        reveal_strlit("0");
        reveal_strlit("1");
    }
    graphql_ws_message(id, "subscribe", query.as_str())
}

/// One order of a data message: each field as the text found under its name, or nothing when
/// it is absent or not a string.
#[derive(Debug)]
pub struct SubsquidOrderRecord {
    pub id: Option<String>,
    pub asset: Option<String>,
    pub amount: Option<String>,
    pub order_type: Option<String>,
    pub price: Option<String>,
    pub user: Option<String>,
    pub timestamp: Option<String>,
}

/// Why an order of a data message cannot be read.
#[derive(Debug)]
pub enum SubsquidOrderError {
    /// The order has no id.
    MissingId,
    /// The order names no side, or a side other than `Buy` and `Sell`.
    UnknownOrderType(String),
    /// The amount is absent or not decimal.
    BadAmount,
    /// The price is absent or not decimal.
    BadPrice,
}

/// A decimal text read as a `u128`.
pub open spec fn decimal_u128(s: Option<String>) -> Option<u128> {
    match s {
        Some(x) => match parse_unsigned(x@, u128::MAX as int) {
            Some(v) => Some(v as u128),
            None => None,
        },
        None => None,
    }
}

/// A decimal text read as a `u64`, or zero.
pub open spec fn decimal_u64_or_zero(s: Option<String>) -> u64 {
    match s {
        Some(x) => match parse_unsigned(x@, u64::MAX as int) {
            Some(v) => v as u64,
            None => 0,
        },
        None => 0,
    }
}

/// The side a text names.
pub open spec fn side_named(s: Option<String>) -> Option<OrderType> {
    match s {
        Some(x) => if x@ == "Buy"@ {
            Some(OrderType::Buy)
        } else if x@ == "Sell"@ {
            Some(OrderType::Sell)
        } else {
            None
        },
        None => None,
    }
}

/// A text, or the empty text.
pub open spec fn or_empty(s: Option<String>) -> Seq<char> {
    match s {
        Some(x) => x@,
        None => Seq::empty(),
    }
}

/// `r` is what reading the record `rec` gives: the first missing or malformed field among the
/// id, the side, the amount and the price, or the new order it describes.
pub open spec fn subsquid_order(rec: SubsquidOrderRecord, r: Result<SpotOrder, SubsquidOrderError>) -> bool {
    if rec.id is None {
        r matches Err(SubsquidOrderError::MissingId)
    } else if side_named(rec.order_type) is None {
        r matches Err(SubsquidOrderError::UnknownOrderType(t)) && t@ == or_empty(rec.order_type)
    } else if decimal_u128(rec.amount) is None {
        r matches Err(SubsquidOrderError::BadAmount)
    } else if decimal_u128(rec.price) is None {
        r matches Err(SubsquidOrderError::BadPrice)
    } else {
        r matches Ok(o) && {
            &&& o.id@ == or_empty(rec.id)
            &&& Some(o.order_type) == side_named(rec.order_type)
            &&& Some(o.amount) == decimal_u128(rec.amount)
            &&& Some(o.price) == decimal_u128(rec.price)
            &&& o.user@ == or_empty(rec.user)
            &&& o.asset@ == or_empty(rec.asset)
            &&& o.timestamp == decimal_u64_or_zero(rec.timestamp)
            &&& o.limit_type is None
            &&& o.status == Some(OrderStatus::New)
        }
    }
}

fn text_or_empty(s: &Option<String>) -> (r: String)
    ensures
        r@ == or_empty(*s),
{
    match s {
        Some(x) => x.clone(),
        None => String::new(),
    }
}

fn read_u128(s: &Option<String>) -> (r: Option<u128>)
    ensures
        r == decimal_u128(*s),
{
    match s {
        Some(x) => parse_u128(x.as_str()),
        None => None,
    }
}

fn read_u64_or_zero(s: &Option<String>) -> (r: u64)
    ensures
        r == decimal_u64_or_zero(*s),
{
    match s {
        Some(x) => match parse_u64(x.as_str()) {
            Some(v) => v,
            None => 0,
        },
        None => 0,
    }
}

/// Reads one order of a data message.
pub fn order_from_subsquid(rec: &SubsquidOrderRecord) -> (r: Result<SpotOrder, SubsquidOrderError>)
    ensures
        subsquid_order(*rec, r),
{
    let id = match &rec.id {
        Some(x) => x.clone(),
        None => {
            return Err(SubsquidOrderError::MissingId);
        },
    };
    let order_type = match &rec.order_type {
        Some(s) => {
            if str_eq(s.as_str(), "Buy") {
                OrderType::Buy
            } else if str_eq(s.as_str(), "Sell") {
                OrderType::Sell
            } else {
                return Err(SubsquidOrderError::UnknownOrderType(s.clone()));
            }
        },
        None => {
            return Err(SubsquidOrderError::UnknownOrderType(String::new()));
        },
    };
    let amount = match read_u128(&rec.amount) {
        Some(a) => a,
        None => {
            return Err(SubsquidOrderError::BadAmount);
        },
    };
    let price = match read_u128(&rec.price) {
        Some(p) => p,
        None => {
            return Err(SubsquidOrderError::BadPrice);
        },
    };
    Ok(
        SpotOrder {
            id,
            user: text_or_empty(&rec.user),
            asset: text_or_empty(&rec.asset),
            amount,
            price,
            timestamp: read_u64_or_zero(&rec.timestamp),
            order_type,
            limit_type: None,
            status: Some(OrderStatus::New),
        },
    )
}

/// The order lists of a data message: those found under `payload.data.activeBuyOrders` and
/// `payload.data.activeSellOrders`, each nothing when absent or not a list.
#[derive(Debug)]
pub struct SubsquidNextMessage {
    pub active_buy_orders: Option<Vec<SubsquidOrderRecord>>,
    pub active_sell_orders: Option<Vec<SubsquidOrderRecord>>,
}

/// The records of an optional list; none when there is no list.
pub open spec fn records_of(l: Option<Vec<SubsquidOrderRecord>>) -> Seq<SubsquidOrderRecord> {
    match l {
        Some(v) => v@,
        None => Seq::empty(),
    }
}

/// What reading each order of `recs` gives, in order.
pub open spec fn read_all(recs: Seq<SubsquidOrderRecord>, rs: Seq<Result<SpotOrder, SubsquidOrderError>>) -> bool {
    rs.len() == recs.len() && forall|i: int| 0 <= i < recs.len() ==> subsquid_order(recs[i], #[trigger] rs[i])
}

fn read_list(
    list: &Option<Vec<SubsquidOrderRecord>>,
    out: &mut Vec<Result<SpotOrder, SubsquidOrderError>>,
)
    ensures
        final(out)@.len() == old(out)@.len() + records_of(*list).len(),
        final(out)@.take(old(out)@.len() as int) == old(out)@,
        read_all(records_of(*list), final(out)@.skip(old(out)@.len() as int)),
{
    let ghost start = out@;
    match list {
        Some(recs) => {
            let n = recs.len();
            let mut k: usize = 0;
            while k < n
                invariant
                    n == recs@.len(),
                    k <= n,
                    out@.len() == start.len() + k,
                    out@.take(start.len() as int) == start,
                    forall|i: int| 0 <= i < k ==> subsquid_order(recs@[i], #[trigger] out@[start.len() + i]),
                decreases n - k,
            {
                let r = order_from_subsquid(&recs[k]);
                let ghost before = out@;
                out.push(r);
                assert(out@.take(start.len() as int) =~= before.take(start.len() as int));
                k = k + 1;
            }
            assert forall|i: int| 0 <= i < n implies subsquid_order(
                recs@[i],
                #[trigger] out@.skip(start.len() as int)[i],
            ) by {
                assert(out@.skip(start.len() as int)[i] == out@[start.len() + i]);
            }
            assert(read_all(records_of(*list), out@.skip(start.len() as int)));
        },
        None => {
            assert(out@.take(start.len() as int) =~= start);
            assert(read_all(records_of(*list), out@.skip(start.len() as int)));
        },
    }
}

/// What reading each order of a data message gives: its buys, then its sells.
pub fn orders_from_next(msg: &SubsquidNextMessage) -> (r: Vec<Result<SpotOrder, SubsquidOrderError>>)
    ensures
        read_all(records_of(msg.active_buy_orders) + records_of(msg.active_sell_orders), r@),
{
    let mut out: Vec<Result<SpotOrder, SubsquidOrderError>> = Vec::new();
    read_list(&msg.active_buy_orders, &mut out);
    let ghost nb = out@.len();
    let ghost first = out@;
    read_list(&msg.active_sell_orders, &mut out);
    proof {
        let bs = records_of(msg.active_buy_orders);
        let ss = records_of(msg.active_sell_orders);
        let all = bs + ss;
        assert forall|i: int| 0 <= i < all.len() implies subsquid_order(all[i], #[trigger] out@[i]) by {
            if i < bs.len() {
                assert(out@[i] == out@.take(nb as int)[i]);
                assert(first.skip(0)[i] == first[i]);
            } else {
                assert(out@[i] == out@.skip(nb as int)[i - nb]);
            }
        }
    }
    out
}

} // verus!
