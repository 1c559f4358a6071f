use spark_middleware::indexer::spot_order::{LimitType, OrderStatus, OrderType, SpotOrder};
use spark_middleware::storage::matching_orders::MatchingOrders;
use spark_middleware::storage::order_book::OrderBook;

fn order(id: &str, price: u128, amount: u128, order_type: OrderType) -> SpotOrder {
    SpotOrder {
        id: id.to_string(),
        user: "user".to_string(),
        asset: "asset".to_string(),
        amount,
        price,
        timestamp: 1,
        order_type,
        limit_type: Some(LimitType::GTC),
        status: Some(OrderStatus::New),
    }
}

#[test]
fn add_then_get_finds_order() {
    let mut book = OrderBook::new();
    book.add_order(order("a", 10, 5, OrderType::Buy));
    let found = book.get_order("a", OrderType::Buy).unwrap();
    assert_eq!(found.id, "a");
    assert_eq!(found.amount, 5);
    assert!(book.get_order("a", OrderType::Sell).is_none());
}

#[test]
fn range_lists_orders_in_ascending_price() {
    let mut book = OrderBook::new();
    book.add_order(order("c", 30, 1, OrderType::Sell));
    book.add_order(order("a", 10, 1, OrderType::Sell));
    book.add_order(order("b", 20, 1, OrderType::Sell));
    book.add_order(order("d", 20, 1, OrderType::Sell));
    let all = book.get_orders_in_range(0, u128::MAX, OrderType::Sell);
    let ids: Vec<&str> = all.iter().map(|o| o.id.as_str()).collect();
    assert_eq!(ids, vec!["a", "b", "d", "c"]);
    let mid = book.get_orders_in_range(15, 25, OrderType::Sell);
    let ids: Vec<&str> = mid.iter().map(|o| o.id.as_str()).collect();
    assert_eq!(ids, vec!["b", "d"]);
    assert_eq!(book.get_sell_orders().len(), 3);
}

#[test]
fn remove_takes_order_out_and_drops_empty_level() {
    let mut book = OrderBook::new();
    book.add_order(order("a", 10, 1, OrderType::Buy));
    book.add_order(order("b", 20, 1, OrderType::Buy));
    book.remove_order("a", Some(OrderType::Buy));
    assert!(book.get_order("a", OrderType::Buy).is_none());
    assert_eq!(book.get_buy_orders().len(), 1);
    book.remove_order("b", None);
    assert_eq!(book.get_buy_orders().len(), 0);
}

#[test]
fn update_moves_order_to_new_price() {
    let mut book = OrderBook::new();
    book.add_order(order("a", 10, 1, OrderType::Buy));
    book.update_order(order("a", 50, 7, OrderType::Buy));
    let all = book.get_orders_in_range(0, u128::MAX, OrderType::Buy);
    assert_eq!(all.len(), 1);
    assert_eq!(all[0].price, 50);
    assert_eq!(all[0].amount, 7);
}

#[test]
fn matching_orders_is_a_set() {
    let mut m = MatchingOrders::new();
    m.add("x");
    m.add("x");
    m.add("y");
    assert!(m.contains("x"));
    assert_eq!(m.get_all().len(), 2);
    m.remove("x");
    assert!(!m.contains("x"));
    assert!(m.contains("y"));
}

fn side_snapshot(book: &OrderBook, order_type: OrderType) -> Vec<(u128, Vec<(String, u128)>)> {
    let levels = match order_type {
        OrderType::Buy => book.get_buy_orders(),
        OrderType::Sell => book.get_sell_orders(),
    };
    levels
        .iter()
        .map(|(price, orders)| (*price, orders.iter().map(|o| (o.id.clone(), o.amount)).collect()))
        .collect()
}

#[test]
fn removing_a_fresh_order_restores_the_book() {
    let mut book = OrderBook::new();
    book.add_order(order("a", 10, 1, OrderType::Buy));
    book.add_order(order("b", 20, 2, OrderType::Buy));
    book.add_order(order("s", 30, 3, OrderType::Sell));
    let buys = side_snapshot(&book, OrderType::Buy);
    let sells = side_snapshot(&book, OrderType::Sell);
    for (id, price) in [("new_level", 15), ("same_level", 20), ("s", 5)] {
        book.add_order(order(id, price, 9, OrderType::Buy));
        assert_ne!(side_snapshot(&book, OrderType::Buy), buys);
        book.remove_order(id, Some(OrderType::Buy));
        assert_eq!(side_snapshot(&book, OrderType::Buy), buys);
        assert_eq!(side_snapshot(&book, OrderType::Sell), sells);
    }
}
