use spark_middleware::indexer::spot_order::{LimitType, OrderStatus, OrderType, SpotOrder};
use spark_middleware::storage::order_book::OrderBook;
use spark_middleware::text::{
    i128_to_decimal, parse_i64, parse_u128, parse_u64, parse_usize, str_contains, str_eq,
    u128_to_decimal,
};
use spark_middleware::web::graphql::Query;
use spark_middleware::web::routes::{
    compute_spread, get_buy_orders, get_indexer_spread, get_orders_count, get_sell_orders,
    max_order_price, min_order_price, Indexer,
};

fn order(id: &str, price: u128, order_type: OrderType) -> SpotOrder {
    SpotOrder {
        id: id.to_string(),
        user: "user".to_string(),
        asset: "asset".to_string(),
        amount: 1,
        price,
        timestamp: 3,
        order_type,
        limit_type: Some(LimitType::GTC),
        status: Some(OrderStatus::New),
    }
}

#[test]
fn unsigned_parsing_follows_std() {
    assert_eq!(parse_u128("42"), Some(42));
    assert_eq!(parse_u128("+42"), Some(42));
    assert_eq!(parse_u128(""), None);
    assert_eq!(parse_u128("+"), None);
    assert_eq!(parse_u128("-1"), None);
    assert_eq!(parse_u128("340282366920938463463374607431768211455"), Some(u128::MAX));
    assert_eq!(parse_u128("340282366920938463463374607431768211456"), None);
    assert_eq!(parse_u64("18446744073709551616"), None);
    assert_eq!(parse_u64("18446744073709551615"), Some(u64::MAX));
    assert_eq!(parse_usize("12x"), None);
}

#[test]
fn signed_parsing_follows_std() {
    assert_eq!(parse_i64("-9223372036854775808"), Some(i64::MIN));
    assert_eq!(parse_i64("-9223372036854775809"), None);
    assert_eq!(parse_i64("9223372036854775807"), Some(i64::MAX));
    assert_eq!(parse_i64("+5"), Some(5));
    assert_eq!(parse_i64("-0"), Some(0));
    assert_eq!(parse_i64("-"), None);
    assert_eq!(parse_i64("-+5"), None);
    for s in ["0", "-17", "123456", "+9"] {
        assert_eq!(parse_i64(s), s.parse::<i64>().ok());
    }
}

#[test]
fn decimal_writing_reads_back() {
    for v in [0u128, 7, 10, 99, 100, 123456789, u128::MAX] {
        let s = u128_to_decimal(v);
        assert_eq!(s, v.to_string());
        assert_eq!(parse_u128(&s), Some(v));
    }
    assert_eq!(i128_to_decimal(-5), "-5");
    assert_eq!(i128_to_decimal(i128::MIN), i128::MIN.to_string());
}

#[test]
fn string_helpers() {
    assert!(str_eq("abc", "abc"));
    assert!(!str_eq("abc", "abd"));
    assert!(str_contains("hello world", "o w"));
    assert!(str_contains("abc", ""));
    assert!(!str_contains("abc", "abcd"));
}

#[test]
fn indexer_names() {
    assert_eq!(Indexer::Envio.as_str(), "envio");
    assert_eq!(Indexer::Pangea.as_str(), "superchain");
    assert_eq!(Indexer::all().len(), 3);
    assert!(matches!(Indexer::from_param("Subsquid"), Ok(Indexer::Subsquid)));
    assert!(matches!(Indexer::from_param("Other"), Err("Other")));
}

#[test]
fn routes_report_the_book() {
    let mut book = OrderBook::new();
    book.add_order(order("b1", 10, OrderType::Buy));
    book.add_order(order("b2", 30, OrderType::Buy));
    book.add_order(order("s1", 40, OrderType::Sell));
    assert_eq!(get_buy_orders(&book).orders.len(), 2);
    assert_eq!(get_sell_orders(&book).orders.len(), 1);
    let counts = get_orders_count(&book);
    assert_eq!((counts.buy_orders, counts.sell_orders), (2, 1));
    let spread = get_indexer_spread(&book);
    assert_eq!(spread.buy, Some(30));
    assert_eq!(spread.sell, Some(40));
    assert_eq!(spread.spread, Some(10));
    assert_eq!(max_order_price(&get_buy_orders(&book).orders), Some(30));
    assert_eq!(min_order_price(&get_buy_orders(&book).orders), Some(10));
    assert_eq!(min_order_price(&Vec::new()), None);
    assert_eq!(compute_spread(Some(5), None), None);
    assert_eq!(compute_spread(Some(50), Some(40)), Some(-10));
}

#[test]
fn graphql_query_lists_orders_as_text() {
    let mut book = OrderBook::new();
    book.add_order(order("b1", 10, OrderType::Buy));
    book.add_order(order("s1", 12, OrderType::Sell));
    let q = Query;
    let buys = q.buy_orders(&book);
    assert_eq!(buys.len(), 1);
    assert_eq!(buys[0].price, "10");
    assert_eq!(buys[0].order_type, "Buy");
    assert_eq!(buys[0].status.as_deref(), Some("New"));
    assert_eq!(q.sell_orders(&book)[0].id, "s1");
    assert_eq!(q.spread(&book), Some("2".to_string()));
}

#[test]
fn graphql_messages_escape_their_strings_as_json() {
    let r = spark_middleware::json::graphql_ws_message("1", "start", "a\"b\\c\nd\te\u{1}\u{1f}é");
    assert_eq!(
        r,
        "{\"id\":\"1\",\"payload\":{\"query\":\"a\\\"b\\\\c\\nd\\te\\u0001\\u001fé\"},\"type\":\"start\"}"
    );
}
