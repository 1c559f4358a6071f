use spark_middleware::indexer::spot_order::{LimitType, OrderStatus, OrderType, SpotOrder};
use spark_middleware::matchers::batch_processor::BatchProcessor;
use spark_middleware::matchers::manager::MatcherManager;
use spark_middleware::matchers::types::{
    MatcherBatchRequest, MatcherConnectRequest, MatcherRequest, MatcherResponse,
};
use spark_middleware::matchers::websocket::{
    batch_size_setting, handle_request, ConnectionAction, MatcherWebSocket,
};
use spark_middleware::storage::order_book::OrderBook;
use spark_middleware::storage::order_storage::OrderStorage;

fn order(id: &str, price: u128, amount: u128, timestamp: u64, order_type: OrderType) -> SpotOrder {
    SpotOrder {
        id: id.to_string(),
        user: "user".to_string(),
        asset: "asset".to_string(),
        amount,
        price,
        timestamp,
        order_type,
        limit_type: Some(LimitType::GTC),
        status: Some(OrderStatus::New),
    }
}

fn ids(orders: &[SpotOrder]) -> Vec<String> {
    orders.iter().map(|o| o.id.clone()).collect()
}

#[test]
fn manager_selects_least_busy_matcher() {
    let mut m = MatcherManager::new();
    assert_eq!(m.select_matcher(), None);
    m.add_matcher("a".to_string());
    m.add_matcher("b".to_string());
    let a = "a".to_string();
    let b = "b".to_string();
    m.increase_active_batches(&a);
    assert_eq!(m.get_active_batches(&a), 1);
    assert_eq!(m.select_matcher(), Some("b".to_string()));
    m.increase_active_batches(&b);
    m.increase_active_batches(&b);
    assert_eq!(m.select_matcher(), Some("a".to_string()));
    m.decrease_active_batches(&b);
    m.decrease_active_batches(&b);
    m.decrease_active_batches(&b);
    assert_eq!(m.get_active_batches(&b), 0);
    m.increase_load(&a, 5);
    m.reset_load();
    m.remove_matcher(&b);
    assert_eq!(m.select_matcher(), Some("a".to_string()));
    assert_eq!(m.get_active_batches(&b), 0);
}

fn storage_with(orders: Vec<SpotOrder>) -> OrderStorage {
    let mut storage = OrderStorage::new();
    for o in orders {
        storage.order_book.add_order(o);
    }
    storage
}

#[test]
fn available_orders_pair_best_buys_with_best_sells() {
    let storage = storage_with(vec![
        order("b1", 100, 5, 2, OrderType::Buy),
        order("b2", 100, 5, 1, OrderType::Buy),
        order("s1", 90, 3, 1, OrderType::Sell),
        order("s2", 120, 3, 1, OrderType::Sell),
    ]);
    let mut ws = MatcherWebSocket::new(storage);
    let batch = ws.get_available_orders(10);
    let got: Vec<(String, u128)> = batch.iter().map(|o| (o.id.clone(), o.amount)).collect();
    assert_eq!(got, vec![("b2".to_string(), 3), ("s1".to_string(), 3)]);
    assert!(ws.storage.matching_orders.contains("b2"));
    assert!(ws.storage.matching_orders.contains("s1"));
    assert_eq!(ws.get_available_orders(10).len(), 0);
    ws.release_orders(&batch);
    assert!(!ws.storage.matching_orders.contains("b2"));
}

#[test]
fn batch_request_answers_no_orders_when_nothing_crosses() {
    let storage = storage_with(vec![order("b", 10, 1, 1, OrderType::Buy), order("s", 20, 1, 1, OrderType::Sell)]);
    let mut ws = MatcherWebSocket::new(storage);
    assert!(matches!(ws.handle_batch_request(25), MatcherResponse::NoOrders));
    let storage = storage_with(vec![order("b", 30, 1, 1, OrderType::Buy), order("s", 20, 1, 1, OrderType::Sell)]);
    let mut ws = MatcherWebSocket::new(storage);
    match ws.handle_batch_request(25) {
        MatcherResponse::Batch(v) => assert_eq!(ids(&v), vec!["b", "s"]),
        other => panic!("unexpected {:?}", other),
    }
}

#[test]
fn batch_size_comes_from_the_setting() {
    assert_eq!(batch_size_setting(None), 25);
    assert_eq!(batch_size_setting(Some("7")), 7);
    assert_eq!(batch_size_setting(Some("seven")), 10);
}

#[test]
fn connection_requests_need_a_connected_matcher() {
    let mut uuid: Option<String> = None;
    let batch = || Some(MatcherRequest::BatchRequest(MatcherBatchRequest { uuid: "m".to_string() }));
    assert_eq!(handle_request(&mut uuid, batch()), ConnectionAction::Ignore);
    assert_eq!(handle_request(&mut uuid, Some(MatcherRequest::OrderUpdates(Vec::new()))), ConnectionAction::Ignore);
    assert_eq!(handle_request(&mut uuid, None), ConnectionAction::Invalid);
    let connect = Some(MatcherRequest::Connect(MatcherConnectRequest { uuid: "m1".to_string() }));
    assert_eq!(handle_request(&mut uuid, connect), ConnectionAction::Connected);
    assert_eq!(uuid.as_deref(), Some("m1"));
    assert_eq!(handle_request(&mut uuid, batch()), ConnectionAction::ServeBatch);
    assert_eq!(handle_request(&mut uuid, Some(MatcherRequest::OrderUpdates(Vec::new()))), ConnectionAction::OrderUpdates);
}

#[test]
fn batch_processor_skips_orders_being_matched() {
    let mut book = OrderBook::new();
    book.add_order(order("a", 10, 1, 1, OrderType::Sell));
    book.add_order(order("b", 20, 1, 1, OrderType::Sell));
    book.add_order(order("c", 30, 1, 1, OrderType::Sell));
    let mut p = BatchProcessor::new(book);
    let first = p.form_batch(2, OrderType::Sell);
    assert_eq!(ids(&first), vec!["a", "b"]);
    let second = p.form_batch(2, OrderType::Sell);
    assert_eq!(ids(&second), vec!["c"]);
    assert!(p.form_batch(2, OrderType::Sell).is_empty());
    p.remove_from_matching(first);
    assert_eq!(ids(&p.form_batch(0, OrderType::Sell)), vec!["a"]);
    assert!(p.form_batch(5, OrderType::Buy).is_empty());
}
