use spark_middleware::indexer::envio::{
    apply_historical_orders, envio_listener_step, format_cancel_order_subscription,
    format_open_order_subscription, format_trade_order_subscription, historical_data_queries,
    order_from_record, orders_from_response, EnvioEventLists, EnvioOrderRecord,
    EnvioOrdersResponse, EnvioResponseError, EnvioWsEvent, EnvioWsMessage, ListenerControl,
};
use spark_middleware::indexer::envio_event_handler::{
    handle_envio_event, parse_envio_event, EnvioEventFields,
};
use spark_middleware::indexer::order_event_handler::{
    handle_order_event, process_trade, PangeaOrderEvent,
};
use spark_middleware::indexer::pangea::{
    chain_from_setting, provider_url, resume_block, FuelChain, PangeaListener,
};
use spark_middleware::indexer::spot_order::{
    order_type_from_str, LimitType, OrderStatus, OrderType, SpotOrder,
};
use spark_middleware::indexer::subsquid::{
    classify_subsquid_text, order_from_subsquid, orders_from_next, subscription_message,
    SubsquidNextMessage, SubsquidOrderError, SubsquidOrderRecord,
};
use spark_middleware::json::graphql_ws_message;
use spark_middleware::storage::matching_orders::MatchingOrders;
use spark_middleware::storage::order_book::OrderBook;
use spark_middleware::subscription::subsquid::format_graphql_subscription;

fn order(id: &str, price: u128, amount: u128, order_type: OrderType, limit: LimitType) -> SpotOrder {
    SpotOrder {
        id: id.to_string(),
        user: "user".to_string(),
        asset: "asset".to_string(),
        amount,
        price,
        timestamp: 1,
        order_type,
        limit_type: Some(limit),
        status: Some(OrderStatus::New),
    }
}

fn s(x: &str) -> Option<String> {
    Some(x.to_string())
}

fn expected_message(id: &str, kind: &str, query: &str) -> String {
    let mut payload = serde_json::Map::new();
    payload.insert("query".to_string(), serde_json::Value::String(query.to_string()));
    let mut m = serde_json::Map::new();
    m.insert("id".to_string(), serde_json::Value::String(id.to_string()));
    m.insert("type".to_string(), serde_json::Value::String(kind.to_string()));
    m.insert("payload".to_string(), serde_json::Value::Object(payload));
    serde_json::Value::Object(m).to_string()
}

#[test]
fn ws_message_is_the_json_object_serde_writes() {
    let q = "subscription {\n  x(where: \"a\")\n}";
    assert_eq!(graphql_ws_message("7", "start", q), expected_message("7", "start", q));
}

#[test]
fn historical_queries_name_the_market() {
    let (buy, sell) = historical_data_queries("0xabc");
    assert_eq!(
        buy,
        "{ \"query\": \"query ActiveBuyQuery { ActiveBuyOrder(where: {market: {_eq: \\\"0xabc\\\"}}) { id price amount user orderType limitType asset status timestamp } }\" }"
    );
    assert_eq!(
        sell,
        "{ \"query\": \"query ActiveSellQuery { ActiveSellOrder(where: {market: {_eq: \\\"0xabc\\\"}}) { id price amount user orderType limitType asset status timestamp } }\" }"
    );
}

#[test]
fn envio_subscriptions_are_start_messages_with_the_market() {
    let open = format_open_order_subscription("M");
    let parsed: serde_json::Value = serde_json::from_str(&open).unwrap();
    assert_eq!(parsed["id"], "1");
    assert_eq!(parsed["type"], "start");
    let query = parsed["payload"]["query"].as_str().unwrap();
    assert!(query.contains("subscription OpenOrderEvent {"));
    assert!(query.contains("OpenOrderEvent(where: {market: {_eq: \"M\"}})"));
    assert!(query.contains("\n                      txId\n"));
    assert_eq!(open, expected_message("1", "start", query));
    let cancel: serde_json::Value = serde_json::from_str(&format_cancel_order_subscription("M")).unwrap();
    assert_eq!(cancel["id"], "2");
    assert!(cancel["payload"]["query"].as_str().unwrap().contains("CancelOrderEvent(where: {market: {_eq: \"M\"}})"));
    let trade: serde_json::Value = serde_json::from_str(&format_trade_order_subscription("M")).unwrap();
    assert_eq!(trade["id"], "3");
    assert!(trade["payload"]["query"].as_str().unwrap().contains("tradeSize"));
}

#[test]
fn record_becomes_new_order() {
    let rec = EnvioOrderRecord {
        id: s("o1"),
        price: s("1500"),
        amount: s("abc"),
        user: s("u"),
        asset: None,
        order_type: s("Sell"),
        timestamp: s("2024-01-02T03:04:05.678Z"),
    };
    let o = order_from_record(&rec).unwrap();
    assert_eq!(o.id, "o1");
    assert_eq!(o.price, 1500);
    assert_eq!(o.amount, 0);
    assert_eq!(o.asset, "");
    assert_eq!(o.order_type, OrderType::Sell);
    assert_eq!(o.timestamp, 1704164645);
    assert_eq!(o.limit_type, None);
    assert_eq!(o.status, Some(OrderStatus::New));
    let bad_time = EnvioOrderRecord { timestamp: s("yesterday"), ..rec };
    assert_eq!(order_from_record(&bad_time).unwrap().timestamp, 0);
    let no_side = EnvioOrderRecord { order_type: s("Limit"), ..bad_time };
    assert!(order_from_record(&no_side).is_none());
}

#[test]
fn response_reads_buy_list_first_and_skips_unknown_sides() {
    let rec = |id: &str, side: &str| EnvioOrderRecord {
        id: s(id),
        price: s("1"),
        amount: s("2"),
        user: None,
        asset: None,
        order_type: s(side),
        timestamp: None,
    };
    let resp = EnvioOrdersResponse {
        active_buy_orders: Some(vec![rec("a", "Buy"), rec("x", "Other"), rec("b", "Buy")]),
        active_sell_orders: Some(vec![rec("s", "Sell")]),
    };
    let orders = orders_from_response(&resp).unwrap();
    let ids: Vec<&str> = orders.iter().map(|o| o.id.as_str()).collect();
    assert_eq!(ids, vec!["a", "b"]);
    let sells_only = EnvioOrdersResponse { active_buy_orders: None, active_sell_orders: Some(vec![rec("s", "Sell")]) };
    assert_eq!(orders_from_response(&sells_only).unwrap().len(), 1);
    let neither = EnvioOrdersResponse { active_buy_orders: None, active_sell_orders: None };
    assert_eq!(orders_from_response(&neither).unwrap_err(), EnvioResponseError::InvalidResponseFormat);
}

#[test]
fn historical_orders_land_in_the_book() {
    let mut book = OrderBook::new();
    apply_historical_orders(
        &mut book,
        vec![order("b", 10, 1, OrderType::Buy, LimitType::GTC)],
        vec![order("s", 20, 1, OrderType::Sell, LimitType::GTC)],
    );
    assert!(book.get_order("b", OrderType::Buy).is_some());
    assert!(book.get_order("s", OrderType::Sell).is_some());
}

fn fields(id: Option<&str>, order_id: &str, amount: &str, order_type: &str, limit: &str) -> EnvioEventFields {
    EnvioEventFields {
        id: id.map(|x| x.to_string()),
        order_id: s(order_id),
        user: s("u"),
        asset: s("a"),
        amount: s(amount),
        price: s("100"),
        order_type: s(order_type),
        limit_type: s(limit),
        timestamp: s("1"),
    }
}

#[test]
fn envio_events_open_trade_and_cancel_orders() {
    let mut book = OrderBook::new();
    let mut matching = MatchingOrders::new();
    let open = parse_envio_event(&fields(Some("e1"), "o1", "10", "Buy", "GTC"), "OpenOrderEvent").unwrap();
    handle_envio_event(&mut book, &mut matching, open, 77);
    let o = book.get_order("o1", OrderType::Buy).unwrap();
    assert_eq!((o.amount, o.price, o.timestamp), (10, 100, 77));
    matching.add("o1");
    let trade = parse_envio_event(&fields(Some("e2"), "o1", "4", "Buy", "GTC"), "TradeOrderEvent").unwrap();
    handle_envio_event(&mut book, &mut matching, trade, 78);
    let o = book.get_order("o1", OrderType::Buy).unwrap();
    assert_eq!(o.amount, 6);
    assert_eq!(o.status, Some(OrderStatus::PartiallyMatched));
    assert!(!matching.contains("o1"));
    let cancel = parse_envio_event(&fields(Some("e3"), "o1", "0", "Buy", "GTC"), "CancelOrderEvent").unwrap();
    handle_envio_event(&mut book, &mut matching, cancel, 79);
    assert!(book.get_order("o1", OrderType::Buy).is_none());
    assert!(parse_envio_event(&fields(None, "o1", "1", "Buy", "GTC"), "OpenOrderEvent").is_none());
}

#[test]
fn envio_listener_applies_data_messages_and_stops_on_close() {
    let mut book = OrderBook::new();
    let mut matching = MatchingOrders::new();
    let data = EnvioWsEvent::Json(EnvioWsMessage {
        message_type: s("data"),
        data: Some(EnvioEventLists {
            open_order_events: Some(vec![
                fields(Some("e1"), "o1", "5", "Sell", "GTC"),
                fields(None, "skipped", "5", "Sell", "GTC"),
            ]),
            cancel_order_events: None,
            trade_order_events: Some(vec![fields(Some("e2"), "o1", "5", "Sell", "IOC")]),
        }),
    });
    let ka = EnvioWsEvent::Json(EnvioWsMessage { message_type: s("ka"), data: None });
    assert_eq!(envio_listener_step(&mut book, &mut matching, ka, 1_000), ListenerControl::Continue);
    assert_eq!(envio_listener_step(&mut book, &mut matching, data, 1_000), ListenerControl::Continue);
    assert!(book.get_order("o1", OrderType::Sell).is_none());
    assert!(book.get_order("skipped", OrderType::Sell).is_none());
    let only_open = EnvioWsEvent::Json(EnvioWsMessage {
        message_type: s("data"),
        data: Some(EnvioEventLists {
            open_order_events: Some(vec![fields(Some("e3"), "o2", "5", "Sell", "GTC")]),
            cancel_order_events: None,
            trade_order_events: None,
        }),
    });
    envio_listener_step(&mut book, &mut matching, only_open, 1_000);
    assert_eq!(book.get_order("o2", OrderType::Sell).map(|o| o.timestamp), Some(1_000));
    assert_eq!(envio_listener_step(&mut book, &mut matching, EnvioWsEvent::Ping, 1_000), ListenerControl::Continue);
    assert_eq!(envio_listener_step(&mut book, &mut matching, EnvioWsEvent::Unreadable, 1_000), ListenerControl::Continue);
    assert_eq!(envio_listener_step(&mut book, &mut matching, EnvioWsEvent::Close, 1_000), ListenerControl::Stop);
    assert_eq!(envio_listener_step(&mut book, &mut matching, EnvioWsEvent::Error, 1_000), ListenerControl::Stop);
}

fn pangea_event(event_type: &str, order_id: &str, amount: u128, limit: &str) -> PangeaOrderEvent {
    PangeaOrderEvent {
        chain: 0,
        block_number: 42,
        block_hash: "h".to_string(),
        transaction_hash: "t".to_string(),
        transaction_index: 0,
        log_index: 0,
        market_id: "m".to_string(),
        order_id: order_id.to_string(),
        event_type: s(event_type),
        asset: None,
        amount: Some(amount),
        asset_type: None,
        order_type: s("Sell"),
        price: Some(7),
        user: s("u"),
        order_matcher: None,
        owner: None,
        limit_type: s(limit),
    }
}

#[test]
fn pangea_events_open_trade_and_cancel_orders() {
    let mut book = OrderBook::new();
    let mut matching = MatchingOrders::new();
    handle_order_event(&mut book, &mut matching, pangea_event("Open", "p1", 9, "GTC"), 5);
    let o = book.get_order("p1", OrderType::Sell).unwrap();
    assert_eq!((o.amount, o.price, o.timestamp, o.asset.as_str()), (9, 7, 5, ""));
    handle_order_event(&mut book, &mut matching, pangea_event("Trade", "p1", 9, "GTC"), 6);
    assert!(book.get_order("p1", OrderType::Sell).is_none());
    handle_order_event(&mut book, &mut matching, pangea_event("Open", "p2", 9, "FOK"), 7);
    handle_order_event(&mut book, &mut matching, pangea_event("Cancel", "p2", 0, "FOK"), 8);
    assert!(book.get_order("p2", OrderType::Sell).is_none());
}

#[test]
fn trade_removes_non_gtc_orders_and_ignores_missing_sides() {
    let mut book = OrderBook::new();
    book.add_order(order("a", 10, 5, OrderType::Buy, LimitType::IOC));
    process_trade(&mut book, "a", 1, Some(OrderType::Buy), None);
    assert!(book.get_order("a", OrderType::Buy).is_some());
    process_trade(&mut book, "a", 1, Some(OrderType::Buy), Some(LimitType::IOC));
    assert!(book.get_order("a", OrderType::Buy).is_none());
}

#[test]
fn pangea_listener_backs_off_up_to_a_minute() {
    let mut listener = PangeaListener::new(100);
    assert_eq!(listener.from_block(), 101);
    let mut delays = Vec::new();
    for _ in 0..8 {
        delays.push(listener.on_disconnect());
    }
    assert_eq!(delays, vec![1, 2, 4, 8, 16, 32, 60, 60]);
    listener.on_stream_opened();
    assert_eq!(listener.retry_delay_secs, 1);
    let mut book = OrderBook::new();
    let mut matching = MatchingOrders::new();
    listener.process_order_data(&mut book, &mut matching, pangea_event("Open", "p1", 1, "GTC"), 31);
    assert_eq!(listener.last_processed_block, 42);
    assert_eq!(book.get_order("p1", OrderType::Sell).map(|o| o.timestamp), Some(31));
}

#[test]
fn pangea_chain_and_resume_settings() {
    assert_eq!(chain_from_setting("FUEL"), FuelChain::Fuel);
    assert_eq!(chain_from_setting("fuel"), FuelChain::FuelTestnet);
    assert_eq!(provider_url(FuelChain::Fuel), "mainnet.fuel.network");
    assert_eq!(provider_url(FuelChain::FuelTestnet), "testnet.fuel.network");
    assert_eq!(resume_block(0, 500), 500);
    assert_eq!(resume_block(900, 500), 900);
}

#[test]
fn subsquid_text_classification() {
    let both = classify_subsquid_text("{\"type\":\"connection_ack\"} {\"type\":\"next\"}");
    assert!(both.subscribe && both.read_orders);
    let ack = classify_subsquid_text("{\"type\":\"connection_ack\"}");
    assert!(ack.subscribe && !ack.read_orders);
    let spaced = classify_subsquid_text("{\"type\": \"next\"}");
    assert!(!spaced.subscribe && !spaced.read_orders);
}

#[test]
fn subsquid_subscription_messages() {
    let buy = subscription_message(OrderType::Buy, None);
    let query = format_graphql_subscription(OrderType::Buy, None);
    assert!(query.contains("activeBuyOrders(limit: 10)"));
    assert_eq!(buy, expected_message("0", "subscribe", &query));
    let sell = subscription_message(OrderType::Sell, Some("3"));
    let sell_query = format_graphql_subscription(OrderType::Sell, Some("3"));
    assert!(sell_query.contains("activeSellOrders(limit: 3)"));
    assert_eq!(sell, expected_message("1", "subscribe", &sell_query));
}

fn squid(id: Option<&str>, side: &str, amount: &str, price: &str) -> SubsquidOrderRecord {
    SubsquidOrderRecord {
        id: id.map(|x| x.to_string()),
        asset: s("a"),
        amount: s(amount),
        order_type: s(side),
        price: s(price),
        user: None,
        timestamp: s("12"),
    }
}

#[test]
fn subsquid_orders_and_their_errors() {
    let o = order_from_subsquid(&squid(Some("q"), "Buy", "5", "6")).unwrap();
    assert_eq!((o.amount, o.price, o.timestamp, o.user.as_str()), (5, 6, 12, ""));
    assert!(matches!(order_from_subsquid(&squid(None, "Buy", "5", "6")), Err(SubsquidOrderError::MissingId)));
    match order_from_subsquid(&squid(Some("q"), "Hold", "5", "6")) {
        Err(SubsquidOrderError::UnknownOrderType(t)) => assert_eq!(t, "Hold"),
        other => panic!("unexpected {:?}", other),
    }
    assert!(matches!(order_from_subsquid(&squid(Some("q"), "Sell", "x", "6")), Err(SubsquidOrderError::BadAmount)));
    assert!(matches!(order_from_subsquid(&squid(Some("q"), "Sell", "5", "-1")), Err(SubsquidOrderError::BadPrice)));
    let msg = SubsquidNextMessage {
        active_buy_orders: Some(vec![squid(Some("b"), "Buy", "1", "1")]),
        active_sell_orders: Some(vec![squid(Some("s"), "Sell", "1", "1"), squid(None, "Sell", "1", "1")]),
    };
    let read = orders_from_next(&msg);
    assert_eq!(read.len(), 3);
    assert_eq!(read[0].as_ref().unwrap().id, "b");
    assert_eq!(read[1].as_ref().unwrap().id, "s");
    assert!(read[2].is_err());
}

#[test]
fn order_type_names() {
    assert_eq!(order_type_from_str("Buy"), Some(OrderType::Buy));
    assert_eq!(order_type_from_str("Sell"), Some(OrderType::Sell));
    assert_eq!(order_type_from_str("buy"), None);
}
