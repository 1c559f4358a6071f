//! The Envio indexer: the requests and subscriptions it is sent, the orders read from its
//! answers, and what each message of its event stream does to the book.
use crate::indexer::envio_event_handler::{
    envio_event_effect, event_parsed, handle_envio_event, parse_envio_event, EnvioEventFields,
    EnvioOrderEvent,
};
use crate::indexer::spot_order::{OrderStatus, OrderType, SpotOrder};
use crate::json::{graphql_ws_message, graphql_ws_message_text};
use crate::storage::matching_orders::MatchingOrders;
use crate::storage::order_book::{book_add, BookState, OrderBook};
use crate::text::{parse_u128, parse_unsigned, str_eq};
use vstd::prelude::*;
use vstd::string::*;

verus! {

/// Request body of the active buy orders of a market, before the market id.
pub const BUY_QUERY_HEAD: &'static str = "{ \"query\": \"query ActiveBuyQuery { ActiveBuyOrder(where: {market: {_eq: \\\"";

/// Request body of the active buy orders, after the market id.
pub const BUY_QUERY_TAIL: &'static str = "\\\"}}) { id price amount user orderType limitType asset status timestamp } }\" }";

/// Request body of the active sell orders of a market, before the market id.
pub const SELL_QUERY_HEAD: &'static str = "{ \"query\": \"query ActiveSellQuery { ActiveSellOrder(where: {market: {_eq: \\\"";

/// Request body of the active sell orders, after the market id.
pub const SELL_QUERY_TAIL: &'static str = "\\\"}}) { id price amount user orderType limitType asset status timestamp } }\" }";

/// Subscription to the open-order events of a market, before the market id.
pub const OPEN_SUBSCRIPTION_HEAD: &'static str = "\n                  subscription OpenOrderEvent {\n                    OpenOrderEvent(where: {market: {_eq: \"";

/// Subscription to the open-order events, after the market id: the fields asked for.
pub const OPEN_SUBSCRIPTION_TAIL: &'static str = "\"}}) {\n                      amount\n                      asset\n                      baseAmount\n                      db_write_timestamp\n                      id\n                      limitType\n                      market\n                      orderId\n                      orderType\n                      price\n                      quoteAmount\n                      timestamp\n                      txId\n                      user\n                    }\n                  }\n                ";

/// Subscription to the cancel-order events of a market, before the market id.
pub const CANCEL_SUBSCRIPTION_HEAD: &'static str = "\n                  subscription CancelOrderEvent {\n                    CancelOrderEvent(where: {market: {_eq: \"";

/// Subscription to the cancel-order events, after the market id: the fields asked for.
pub const CANCEL_SUBSCRIPTION_TAIL: &'static str = "\"}}) {\n                      baseAmount\n                      db_write_timestamp\n                      id\n                      market\n                      orderId\n                      quoteAmount\n                      timestamp\n                      user\n                      txId\n                    }\n                  }\n                ";

/// Subscription to the trade events of a market, before the market id.
pub const TRADE_SUBSCRIPTION_HEAD: &'static str = "\n                  subscription TradeOrderEvent {\n                    TradeOrderEvent(where: {market: {_eq: \"";

/// Subscription to the trade events, after the market id: the fields asked for.
pub const TRADE_SUBSCRIPTION_TAIL: &'static str = "\"}}) {\n                      buyOrderId\n                      buyer\n                      buyerQuoteAmount\n                      buyerBaseAmount\n                      id\n                      db_write_timestamp\n                      market\n                      sellOrderId\n                      seller\n                      sellerBaseAmount\n                      sellerIsMaker\n                      sellerQuoteAmount\n                      timestamp\n                      tradePrice\n                      tradeSize\n                      txId\n                    }\n                  }\n                ";

/// The message opening a connection to the event stream.
pub const CONNECTION_INIT: &'static str = "{\"type\": \"connection_init\"}";

/// Format of the timestamps of the historical orders.
pub const TIMESTAMP_FORMAT: &'static str = "%Y-%m-%dT%H:%M:%S%.3fZ";

/// The request bodies asking for the active buy orders, then the active sell orders, of
/// `market`.
pub fn historical_data_queries(market: &str) -> (r: (String, String))
    ensures
        r.0@ == BUY_QUERY_HEAD@ + market@ + BUY_QUERY_TAIL@,
        r.1@ == SELL_QUERY_HEAD@ + market@ + SELL_QUERY_TAIL@,
{
    let mut buy_query = BUY_QUERY_HEAD.to_owned();
    buy_query.append(market);
    buy_query.append(BUY_QUERY_TAIL);
    let mut sell_query = SELL_QUERY_HEAD.to_owned();
    sell_query.append(market);
    sell_query.append(SELL_QUERY_TAIL);
    (buy_query, sell_query)
}

/// The book after the orders `os` are added, in order.
pub open spec fn book_after_adds(b: BookState, os: Seq<SpotOrder>) -> BookState
    decreases os.len(),
{
    if os.len() == 0 {
        b
    } else {
        book_add(book_after_adds(b, os.drop_last()), os.last())
    }
}

fn add_all(order_book: &mut OrderBook, orders: Vec<SpotOrder>)
    requires
        old(order_book).wf(),
    ensures
        final(order_book).wf(),
        final(order_book)@ == book_after_adds(old(order_book)@, orders@),
{
    let ghost b0 = order_book@;
    let n = orders.len();
    let mut k: usize = 0;
    assert(orders@.take(0) =~= Seq::<SpotOrder>::empty());
    while k < n
        invariant
            n == orders@.len(),
            k <= n,
            order_book.wf(),
            order_book@ == book_after_adds(b0, orders@.take(k as int)),
        decreases n - k,
    {
        assert(orders@.take(k + 1).drop_last() =~= orders@.take(k as int));
        order_book.add_order(orders[k].clone());
        k = k + 1;
    }
    assert(orders@.take(n as int) =~= orders@);
}

/// Adds the historical buy orders, then the historical sell orders, to the book.
pub fn apply_historical_orders(
    order_book: &mut OrderBook,
    buy_orders: Vec<SpotOrder>,
    sell_orders: Vec<SpotOrder>,
)
    requires
        old(order_book).wf(),
    ensures
        final(order_book).wf(),
        final(order_book)@ == book_after_adds(book_after_adds(old(order_book)@, buy_orders@), sell_orders@),
{
    add_all(order_book, buy_orders);
    add_all(order_book, sell_orders);
}

/// One order of an answer to the historical queries: each field as the text found under its
/// name, or nothing when it is absent or not a string.
#[derive(Debug)]
pub struct EnvioOrderRecord {
    pub id: Option<String>,
    pub price: Option<String>,
    pub amount: Option<String>,
    pub user: Option<String>,
    pub asset: Option<String>,
    pub order_type: Option<String>,
    pub timestamp: Option<String>,
}

/// An answer to a historical query: the order lists found under `data.ActiveBuyOrder` and
/// `data.ActiveSellOrder`, each nothing when absent or not a list.
#[derive(Debug)]
pub struct EnvioOrdersResponse {
    pub active_buy_orders: Option<Vec<EnvioOrderRecord>>,
    pub active_sell_orders: Option<Vec<EnvioOrderRecord>>,
}

/// Why an answer to a historical query gives no orders.
#[derive(Debug, PartialEq, Eq, Clone, Copy, Structural)]
pub enum EnvioResponseError {
    /// Neither order list is there.
    InvalidResponseFormat,
}

/// The seconds since the epoch of the date and time `s` read in the format `fmt`, as UTC,
/// or nothing when `s` does not read in that format.
pub uninterp spec fn datetime_secs(s: Seq<char>, fmt: Seq<char>) -> Option<i64>;

/// `chrono::NaiveDateTime::parse_from_str(s, fmt)`, then `and_utc().timestamp()`: the
/// seconds since the epoch of `s` read in `fmt` as a UTC time, or nothing when `s` does not
/// read in that format. What a format accepts is left to the name.
#[verifier::external_body]
fn parse_datetime_secs(s: &str, fmt: &str) -> (r: Option<i64>)
    ensures
        r == datetime_secs(s@, fmt@),
{
    chrono::NaiveDateTime::parse_from_str(s, fmt).ok().map(|dt| dt.and_utc().timestamp())
}

/// A text field, or the empty text when absent.
pub open spec fn text_or_empty(s: Option<String>) -> Seq<char> {
    match s {
        Some(x) => x@,
        None => Seq::empty(),
    }
}

/// A decimal field, or zero when absent or not decimal.
pub open spec fn decimal_or_zero(s: Option<String>) -> u128 {
    match s {
        Some(x) => match parse_unsigned(x@, u128::MAX as int) {
            Some(v) => v as u128,
            None => 0,
        },
        None => 0,
    }
}

/// A timestamp field in seconds, or zero when absent or not in the historical format.
pub open spec fn record_timestamp(s: Option<String>) -> u64 {
    match s {
        Some(x) => match datetime_secs(x@, TIMESTAMP_FORMAT@) {
            Some(t) => t as u64,
            None => 0,
        },
        None => 0,
    }
}

/// The side named by a record, if it names `Buy` or `Sell`.
pub open spec fn record_side(s: Option<String>) -> Option<OrderType> {
    match s {
        Some(x) => if x@ == "Buy"@ {
            Some(OrderType::Buy)
        } else if x@ == "Sell"@ {
            Some(OrderType::Sell)
        } else {
            None
        },
        None => None,
    }
}

/// `o` is the new order a record describes.
pub open spec fn record_order(rec: EnvioOrderRecord, o: SpotOrder) -> bool {
    &&& record_side(rec.order_type) == Some(o.order_type)
    &&& o.id@ == text_or_empty(rec.id)
    &&& o.user@ == text_or_empty(rec.user)
    &&& o.asset@ == text_or_empty(rec.asset)
    &&& o.price == decimal_or_zero(rec.price)
    &&& o.amount == decimal_or_zero(rec.amount)
    &&& o.timestamp == record_timestamp(rec.timestamp)
    &&& o.limit_type is None
    &&& o.status == Some(OrderStatus::New)
}

fn text_field(s: &Option<String>) -> (r: String)
    ensures
        r@ == text_or_empty(*s),
{
    match s {
        Some(x) => x.clone(),
        None => String::new(),
    }
}

fn decimal_field(s: &Option<String>) -> (r: u128)
    ensures
        r == decimal_or_zero(*s),
{
    match s {
        Some(x) => match parse_u128(x.as_str()) {
            Some(v) => v,
            None => 0,
        },
        None => 0,
    }
}

/// The new order a record describes, when it names its side.
pub fn order_from_record(rec: &EnvioOrderRecord) -> (r: Option<SpotOrder>)
    ensures
        r is Some <==> record_side(rec.order_type) is Some,
        r matches Some(o) ==> record_order(*rec, o),
{
    let order_type = match &rec.order_type {
        Some(s) => {
            if str_eq(s.as_str(), "Buy") {
                OrderType::Buy
            } else if str_eq(s.as_str(), "Sell") {
                OrderType::Sell
            } else {
                return None;
            }
        },
        None => {
            return None;
        },
    };
    let timestamp: u64 = match &rec.timestamp {
        Some(ts) => match parse_datetime_secs(ts.as_str(), TIMESTAMP_FORMAT) {
            Some(t) => t as u64,
            None => 0,
        },
        None => 0,
    };
    Some(
        SpotOrder {
            id: text_field(&rec.id),
            user: text_field(&rec.user),
            asset: text_field(&rec.asset),
            amount: decimal_field(&rec.amount),
            price: decimal_field(&rec.price),
            timestamp,
            order_type,
            limit_type: None,
            status: Some(OrderStatus::New),
        },
    )
}

/// `os` are the orders of the records `rs` that name their side, in order.
pub open spec fn records_orders(rs: Seq<EnvioOrderRecord>, os: Seq<SpotOrder>) -> bool
    decreases rs.len(),
{
    if rs.len() == 0 {
        os.len() == 0
    } else if record_side(rs.last().order_type) is None {
        records_orders(rs.drop_last(), os)
    } else {
        os.len() > 0 && records_orders(rs.drop_last(), os.drop_last()) && record_order(
            rs.last(),
            os.last(),
        )
    }
}

/// The orders of an answer to a historical query: those of its buy list when it has one,
/// else those of its sell list; records that name no side are skipped.
pub fn orders_from_response(resp: &EnvioOrdersResponse) -> (r: Result<
    Vec<SpotOrder>,
    EnvioResponseError,
>)
    ensures
        match r {
            Ok(os) => match resp.active_buy_orders {
                Some(rs) => records_orders(rs@, os@),
                None => match resp.active_sell_orders {
                    Some(rs) => records_orders(rs@, os@),
                    None => false,
                },
            },
            Err(e) => e == EnvioResponseError::InvalidResponseFormat && resp.active_buy_orders is None
                && resp.active_sell_orders is None,
        },
{
    let records = match &resp.active_buy_orders {
        Some(rs) => rs,
        None => match &resp.active_sell_orders {
            Some(rs) => rs,
            None => {
                return Err(EnvioResponseError::InvalidResponseFormat);
            },
        },
    };
    let mut result: Vec<SpotOrder> = Vec::new();
    let n = records.len();
    let mut k: usize = 0;
    while k < n
        invariant
            n == records@.len(),
            k <= n,
            records_orders(records@.take(k as int), result@),
        decreases n - k,
    {
        assert(records@.take(k + 1).drop_last() =~= records@.take(k as int));
        assert(records@.take(k + 1).last() == records@[k as int]);
        match order_from_record(&records[k]) {
            Some(order) => {
                let ghost before = result@;
                result.push(order);
                assert(result@.drop_last() =~= before);
            },
            None => {},
        }
        k = k + 1;
    }
    assert(records@.take(n as int) =~= records@);
    Ok(result)
}

/// The subscription message to the open-order events of `market`.
pub fn format_open_order_subscription(market: &str) -> (r: String)
    ensures
        r@ == graphql_ws_message_text(
            "1"@,
            "start"@,
            OPEN_SUBSCRIPTION_HEAD@ + market@ + OPEN_SUBSCRIPTION_TAIL@,
        ),
{
    let mut query = OPEN_SUBSCRIPTION_HEAD.to_owned();
    query.append(market);
    query.append(OPEN_SUBSCRIPTION_TAIL);
    graphql_ws_message("1", "start", query.as_str())
}

/// The subscription message to the cancel-order events of `market`.
pub fn format_cancel_order_subscription(market: &str) -> (r: String)
    ensures
        r@ == graphql_ws_message_text(
            "2"@,
            "start"@,
            CANCEL_SUBSCRIPTION_HEAD@ + market@ + CANCEL_SUBSCRIPTION_TAIL@,
        ),
{
    let mut query = CANCEL_SUBSCRIPTION_HEAD.to_owned();
    query.append(market);
    query.append(CANCEL_SUBSCRIPTION_TAIL);
    graphql_ws_message("2", "start", query.as_str())
}

/// The subscription message to the trade events of `market`.
pub fn format_trade_order_subscription(market: &str) -> (r: String)
    ensures
        r@ == graphql_ws_message_text(
            "3"@,
            "start"@,
            TRADE_SUBSCRIPTION_HEAD@ + market@ + TRADE_SUBSCRIPTION_TAIL@,
        ),
{
    let mut query = TRADE_SUBSCRIPTION_HEAD.to_owned();
    query.append(market);
    query.append(TRADE_SUBSCRIPTION_TAIL);
    graphql_ws_message("3", "start", query.as_str())
}

/// The event lists of a `data` message: those found under `payload.data.OpenOrderEvent`,
/// `payload.data.CancelOrderEvent` and `payload.data.TradeOrderEvent`, each nothing when
/// absent or not a list.
#[derive(Debug)]
pub struct EnvioEventLists {
    pub open_order_events: Option<Vec<EnvioEventFields>>,
    pub cancel_order_events: Option<Vec<EnvioEventFields>>,
    pub trade_order_events: Option<Vec<EnvioEventFields>>,
}

/// A text message of the event stream that reads as JSON: its `type`, nothing when absent or
/// not a string, and the event lists under `payload.data`, nothing when absent.
#[derive(Debug)]
pub struct EnvioWsMessage {
    pub message_type: Option<String>,
    pub data: Option<EnvioEventLists>,
}

/// What the event stream delivers.
#[derive(Debug)]
pub enum EnvioWsEvent {
    /// A text message that reads as JSON.
    Json(EnvioWsMessage),
    /// A text message that does not read as JSON.
    Unreadable,
    /// A binary message.
    Binary,
    /// A ping.
    Ping,
    /// A pong.
    Pong,
    /// The server closes the stream.
    Close,
    /// The stream fails.
    Error,
}

/// Whether to read the next message of a stream.
#[derive(Debug, PartialEq, Eq, Clone, Copy, Structural)]
pub enum ListenerControl {
    Continue,
    Stop,
}

/// `es` are the events built from the fields `fs` as events of type `kind`, in order; fields
/// without an id give none.
pub open spec fn parsed_events(fs: Seq<EnvioEventFields>, kind: Seq<char>, es: Seq<EnvioOrderEvent>) -> bool
    decreases fs.len(),
{
    if fs.len() == 0 {
        es.len() == 0
    } else if fs.last().id is None {
        parsed_events(fs.drop_last(), kind, es)
    } else {
        es.len() > 0 && parsed_events(fs.drop_last(), kind, es.drop_last()) && event_parsed(
            fs.last(),
            kind,
            es.last(),
        )
    }
}

/// From book `b` and matching set `m`, applying the events `es` in order, new orders stamped
/// `now`, leads to book `b2` and matching set `m2`.
pub open spec fn events_applied(
    b: BookState,
    m: Set<Seq<char>>,
    es: Seq<EnvioOrderEvent>,
    now: u64,
    b2: BookState,
    m2: Set<Seq<char>>,
) -> bool
    decreases es.len(),
{
    if es.len() == 0 {
        b2 == b && m2 == m
    } else {
        exists|bm: BookState, mm: Set<Seq<char>>|
            #![trigger envio_event_effect(bm, mm, es.last(), now, b2, m2)]
            events_applied(b, m, es.drop_last(), now, bm, mm) && envio_event_effect(
                bm,
                mm,
                es.last(),
                now,
                b2,
                m2,
            )
    }
}

/// The fields of an optional list; none when there is no list.
pub open spec fn fields_of(l: Option<Vec<EnvioEventFields>>) -> Seq<EnvioEventFields> {
    match l {
        Some(v) => v@,
        None => Seq::empty(),
    }
}

/// The events of a `data` message's lists: its open, cancel and trade events, in that order.
pub open spec fn message_events(d: EnvioEventLists, es: Seq<EnvioOrderEvent>) -> bool {
    exists|eo: Seq<EnvioOrderEvent>, ec: Seq<EnvioOrderEvent>, et: Seq<EnvioOrderEvent>|
        #![trigger parsed_events(fields_of(d.open_order_events), "OpenOrderEvent"@, eo), parsed_events(fields_of(d.cancel_order_events), "CancelOrderEvent"@, ec), parsed_events(fields_of(d.trade_order_events), "TradeOrderEvent"@, et)]
        parsed_events(fields_of(d.open_order_events), "OpenOrderEvent"@, eo) && parsed_events(
            fields_of(d.cancel_order_events),
            "CancelOrderEvent"@,
            ec,
        ) && parsed_events(fields_of(d.trade_order_events), "TradeOrderEvent"@, et) && es == eo
            + ec + et
}

/// The events a stream message carries: those of a `data` message's lists, none otherwise.
pub open spec fn stream_events(ev: EnvioWsEvent, es: Seq<EnvioOrderEvent>) -> bool {
    match ev {
        EnvioWsEvent::Json(msg) => match msg.message_type {
            Some(t) => if t@ == "data"@ {
                match msg.data {
                    Some(d) => message_events(d, es),
                    None => es.len() == 0,
                }
            } else {
                es.len() == 0
            },
            None => es.len() == 0,
        },
        _ => es.len() == 0,
    }
}

fn apply_event_list(
    order_book: &mut OrderBook,
    matching_orders: &mut MatchingOrders,
    list: &Option<Vec<EnvioEventFields>>,
    kind: &str,
    now_millis: u64,
    Ghost(b0): Ghost<BookState>,
    Ghost(m0): Ghost<Set<Seq<char>>>,
    Ghost(done): Ghost<Seq<EnvioOrderEvent>>,
) -> (added: Ghost<Seq<EnvioOrderEvent>>)
    requires
        old(order_book).wf(),
        old(matching_orders).wf(),
        events_applied(b0, m0, done, now_millis, old(order_book)@, old(matching_orders)@),
    ensures
        final(order_book).wf(),
        final(matching_orders).wf(),
        parsed_events(fields_of(*list), kind@, added@),
        events_applied(b0, m0, done + added@, now_millis, final(order_book)@, final(matching_orders)@),
{
    let ghost mut es: Seq<EnvioOrderEvent> = Seq::empty();
    match list {
        Some(fields) => {
            let n = fields.len();
            let mut k: usize = 0;
            assert(done + es =~= done);
            while k < n
                invariant
                    n == fields@.len(),
                    k <= n,
                    order_book.wf(),
                    matching_orders.wf(),
                    parsed_events(fields@.take(k as int), kind@, es),
                    events_applied(b0, m0, done + es, now_millis, order_book@, matching_orders@),
                decreases n - k,
            {
                assert(fields@.take(k + 1).drop_last() =~= fields@.take(k as int));
                assert(fields@.take(k + 1).last() == fields@[k as int]);
                match parse_envio_event(&fields[k], kind) {
                    Some(event) => {
                        let ghost bm = order_book@;
                        let ghost mm = matching_orders@;
                        let ghost e = event;
                        handle_envio_event(order_book, matching_orders, event, now_millis);
                        proof {
                            let now = now_millis;
                            let prev = es;
                            es = es.push(e);
                            assert(es.drop_last() =~= prev);
                            assert((done + es).drop_last() =~= done + prev);
                            assert((done + es).last() == e);
                            assert(envio_event_effect(bm, mm, (done + es).last(), now, order_book@, matching_orders@));
                        }
                    },
                    None => {},
                }
                k = k + 1;
            }
            assert(fields@.take(n as int) =~= fields@);
        },
        None => {
            assert(done + es =~= done);
        },
    }
    Ghost(es)
}

/// Handles one delivery of the event stream, received at `now_millis`: the events of a `data`
/// message are applied to the book and the matching set, in order, each new order stamped
/// `now_millis`; a close or a failure of the stream ends the listening.
pub fn envio_listener_step(
    order_book: &mut OrderBook,
    matching_orders: &mut MatchingOrders,
    event: EnvioWsEvent,
    now_millis: u64,
) -> (r: ListenerControl)
    requires
        old(order_book).wf(),
        old(matching_orders).wf(),
    ensures
        final(order_book).wf(),
        final(matching_orders).wf(),
        r == (match event {
            EnvioWsEvent::Close | EnvioWsEvent::Error => ListenerControl::Stop,
            _ => ListenerControl::Continue,
        }),
        exists|es: Seq<EnvioOrderEvent>|
            #[trigger] stream_events(event, es) && events_applied(
                old(order_book)@,
                old(matching_orders)@,
                es,
                now_millis,
                final(order_book)@,
                final(matching_orders)@,
            ),
{
    let ghost b0 = order_book@;
    let ghost m0 = matching_orders@;
    let ghost ev = event;
    match event {
        EnvioWsEvent::Json(msg) => {
            let is_data = match &msg.message_type {
                Some(t) => str_eq(t.as_str(), "data"),
                None => false,
            };
            if is_data {
                match &msg.data {
                    Some(d) => {
                        let Ghost(eo) = apply_event_list(
                            order_book,
                            matching_orders,
                            &d.open_order_events,
                            "OpenOrderEvent",
                            now_millis,
                            Ghost(b0),
                            Ghost(m0),
                            Ghost(Seq::empty()),
                        );
                        let Ghost(ec) = apply_event_list(
                            order_book,
                            matching_orders,
                            &d.cancel_order_events,
                            "CancelOrderEvent",
                            now_millis,
                            Ghost(b0),
                            Ghost(m0),
                            Ghost(Seq::empty() + eo),
                        );
                        let Ghost(et) = apply_event_list(
                            order_book,
                            matching_orders,
                            &d.trade_order_events,
                            "TradeOrderEvent",
                            now_millis,
                            Ghost(b0),
                            Ghost(m0),
                            Ghost(Seq::empty() + eo + ec),
                        );
                        proof {
                            reveal_strlit("OpenOrderEvent");
                            reveal_strlit("CancelOrderEvent");
                            reveal_strlit("TradeOrderEvent");
                            let es = Seq::<EnvioOrderEvent>::empty() + eo + ec + et;
                            assert(es =~= eo + ec + et);
                            assert(message_events(*d, es));
                            assert(stream_events(ev, es));
                        }
                    },
                    None => {
                        assert(stream_events(ev, Seq::empty()));
                    },
                }
            } else {
                assert(stream_events(ev, Seq::empty()));
            }
            ListenerControl::Continue
        },
        EnvioWsEvent::Close | EnvioWsEvent::Error => {
            assert(stream_events(ev, Seq::empty()));
            ListenerControl::Stop
        },
        _ => {
            assert(stream_events(ev, Seq::empty()));
            ListenerControl::Continue
        },
    }
}

} // verus!
