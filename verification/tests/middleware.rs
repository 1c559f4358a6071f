use spark_middleware::indexer::spot_order::{LimitType, OrderStatus, OrderType, SpotOrder};
use spark_middleware::matchers::types::MatcherOrderUpdate;
use spark_middleware::middleware::aggregator::{
    batch_matches, match_orders, orders_with_consensus, Aggregator,
};
use spark_middleware::middleware::manager::{OrderManager, OrderManagerMessage};
use spark_middleware::middleware::order_pool::{
    generate_price_time_ranges, PriceTimeRange, ShardedOrderPool,
};
use spark_middleware::middleware::order_shard::OrderShard;

fn order(id: &str, price: u128, amount: u128, timestamp: u64, order_type: OrderType) -> SpotOrder {
    SpotOrder {
        id: id.to_string(),
        user: "user".to_string(),
        asset: "asset".to_string(),
        amount,
        price,
        timestamp,
        order_type,
        limit_type: Some(LimitType::GTC),
        status: Some(OrderStatus::New),
    }
}

fn ids(orders: &[SpotOrder]) -> Vec<String> {
    orders.iter().map(|o| o.id.clone()).collect()
}

fn sorted_ids(orders: &[SpotOrder]) -> Vec<String> {
    let mut v = ids(orders);
    v.sort();
    v
}

fn range(min_price: u128, max_price: u128, min_time: u64, max_time: u64) -> PriceTimeRange {
    PriceTimeRange { min_price, max_price, min_time, max_time }
}

#[test]
fn shard_starts_empty() {
    let shard = OrderShard::new();
    assert!(shard.get_best_buy_orders().is_empty());
    assert!(shard.get_best_sell_orders().is_empty());
    assert_eq!(shard.get_buy_price_range(), None);
    assert_eq!(shard.get_sell_price_range(), None);
    assert_eq!(shard.get_time_range(), None);
    assert_eq!(shard.get_buy_order_count(), 0);
    assert_eq!(shard.get_sell_order_count(), 0);
}

#[test]
fn shard_lists_buys_highest_first_and_sells_lowest_first() {
    let mut shard = OrderShard::new();
    shard.add_order(order("b1", 10, 1, 1, OrderType::Buy));
    shard.add_order(order("b2", 30, 1, 1, OrderType::Buy));
    shard.add_order(order("b3", 20, 1, 1, OrderType::Buy));
    shard.add_order(order("s1", 50, 1, 1, OrderType::Sell));
    shard.add_order(order("s2", 40, 1, 1, OrderType::Sell));
    assert_eq!(ids(&shard.get_best_buy_orders()), vec!["b2", "b3", "b1"]);
    assert_eq!(ids(&shard.get_best_sell_orders()), vec!["s2", "s1"]);
    assert_eq!(shard.get_buy_price_range(), Some((10, 30)));
    assert_eq!(shard.get_sell_price_range(), Some((40, 50)));
    assert_eq!(shard.get_buy_order_count(), 3);
    assert_eq!(shard.get_sell_order_count(), 2);
}

#[test]
fn shard_add_replaces_same_id_at_same_price() {
    let mut shard = OrderShard::new();
    shard.add_order(order("a", 10, 1, 1, OrderType::Buy));
    shard.add_order(order("a", 10, 9, 1, OrderType::Buy));
    let at = shard.get_orders_by_price_and_time(10, 0, OrderType::Buy);
    assert_eq!(at.len(), 1);
    assert_eq!(at[0].amount, 9);
    assert!(shard.get_orders_by_price_and_time(10, 0, OrderType::Sell).is_empty());
}

#[test]
fn shard_remove_keeps_other_orders_of_the_level() {
    let mut shard = OrderShard::new();
    shard.add_order(order("a", 10, 1, 1, OrderType::Sell));
    shard.add_order(order("b", 10, 2, 1, OrderType::Sell));
    shard.remove_order("a", 10, OrderType::Sell);
    assert_eq!(ids(&shard.get_orders_by_price_and_time(10, 0, OrderType::Sell)), vec!["b"]);
    shard.remove_order("zzz", 99, OrderType::Sell);
    assert_eq!(shard.get_sell_order_count(), 1);
}

#[test]
fn shard_update_changes_amount_and_status() {
    let mut shard = OrderShard::new();
    shard.add_order(order("a", 10, 5, 1, OrderType::Buy));
    shard.update_order("a", 10, 3, Some(OrderStatus::PartiallyMatched), OrderType::Buy);
    let at = shard.get_orders_by_price_and_time(10, 0, OrderType::Buy);
    assert_eq!(at[0].amount, 3);
    assert_eq!(at[0].status, Some(OrderStatus::PartiallyMatched));
    shard.update_order("a", 10, 4, None, OrderType::Buy);
    let at = shard.get_orders_by_price_and_time(10, 0, OrderType::Buy);
    assert_eq!(at[0].amount, 4);
    assert_eq!(at[0].status, Some(OrderStatus::PartiallyMatched));
    shard.update_order_status("a", 10, OrderStatus::Matched);
    let at = shard.get_orders_by_price_and_time(10, 0, OrderType::Buy);
    assert_eq!(at[0].status, Some(OrderStatus::Matched));
}

#[test]
fn shard_clear_empties_both_sides() {
    let mut shard = OrderShard::new();
    shard.add_order(order("a", 10, 5, 1, OrderType::Buy));
    shard.add_order(order("b", 12, 5, 1, OrderType::Sell));
    shard.clear_orders();
    assert_eq!(shard.get_buy_order_count(), 0);
    assert_eq!(shard.get_sell_price_range(), None);
}

#[test]
fn generated_ranges_cover_eight_bands_by_a_hundred_windows() {
    let now: u64 = 1_000_000;
    let ranges = generate_price_time_ranges(now);
    assert_eq!(ranges.len(), 800);
    assert_eq!((ranges[0].min_price, ranges[0].max_price), (0, 40_000_000_000));
    assert_eq!((ranges[0].min_time, ranges[0].max_time), (1_000_000 - 14_400, 1_000_000));
    assert_eq!((ranges[1].min_time, ranges[1].max_time), (1_000_000 - 28_800, 1_000_000 - 14_400));
    assert_eq!((ranges[100].min_price, ranges[100].max_price), (40_000_000_000, 45_000_000_000));
    assert_eq!((ranges[799].min_price, ranges[799].max_price), (70_000_000_000, u128::MAX));
    assert_eq!((ranges[799].min_time, ranges[799].max_time), (0, 0));
}

#[test]
fn pool_routes_orders_to_the_first_matching_range() {
    let mut pool = ShardedOrderPool::new(vec![range(0, 100, 0, 10), range(0, 100, 5, 20)]);
    pool.add_order(order("a", 50, 1, 7, OrderType::Buy));
    pool.add_order(order("b", 50, 1, 15, OrderType::Buy));
    pool.add_order(order("c", 500, 1, 7, OrderType::Buy));
    assert_eq!(ids(&pool.get_orders_by_price_and_time(50, 7, OrderType::Buy)), vec!["a"]);
    assert_eq!(ids(&pool.get_orders_by_price_and_time(50, 15, OrderType::Buy)), vec!["b"]);
    assert!(pool.get_orders_by_price_and_time(500, 7, OrderType::Buy).is_empty());
    assert!(pool.get_shard_by_price_and_time(500, 7).is_none());
    let shard = pool.get_shard_by_price_and_time(50, 12).unwrap();
    assert_eq!(ids(&shard.get_best_buy_orders()), vec!["b"]);
}

#[test]
fn pool_best_orders_are_sorted_across_shards() {
    let mut pool = ShardedOrderPool::new(vec![range(0, 100, 0, 10), range(0, 100, 11, 20)]);
    pool.add_order(order("b1", 10, 1, 1, OrderType::Buy));
    pool.add_order(order("b2", 30, 1, 15, OrderType::Buy));
    pool.add_order(order("b3", 20, 1, 2, OrderType::Buy));
    pool.add_order(order("s1", 60, 1, 12, OrderType::Sell));
    pool.add_order(order("s2", 40, 1, 3, OrderType::Sell));
    assert_eq!(ids(&pool.get_best_buy_orders()), vec!["b2", "b3", "b1"]);
    assert_eq!(ids(&pool.get_best_sell_orders()), vec!["s2", "s1"]);
}

#[test]
fn pool_remove_and_update_reach_the_right_shard() {
    let mut pool = ShardedOrderPool::new(vec![range(0, 100, 0, 10)]);
    pool.add_order(order("a", 10, 5, 1, OrderType::Sell));
    pool.add_order(order("b", 10, 5, 1, OrderType::Sell));
    pool.remove_order("a", 10, 1, OrderType::Sell);
    assert_eq!(ids(&pool.get_best_sell_orders()), vec!["b"]);
    pool.update_order_in_shard("b", 10, 1, 2, Some(OrderStatus::PartiallyMatched), OrderType::Sell);
    let at = pool.get_orders_by_price_and_time(10, 1, OrderType::Sell);
    assert_eq!(at[0].amount, 2);
    pool.update_order_status(vec![MatcherOrderUpdate {
        order_id: "b".to_string(),
        price: 10,
        timestamp: 1,
        new_amount: 1,
        status: Some(OrderStatus::Matched),
        order_type: OrderType::Sell,
    }]);
    let at = pool.get_orders_by_price_and_time(10, 1, OrderType::Sell);
    assert_eq!(at[0].amount, 1);
    assert_eq!(at[0].status, Some(OrderStatus::Matched));
}

#[test]
fn pool_remove_by_price_reaches_every_window() {
    let mut pool = ShardedOrderPool::new(vec![range(0, 100, 0, 10), range(0, 100, 11, 20)]);
    pool.add_order(order("a", 10, 5, 1, OrderType::Buy));
    pool.add_order(order("keep1", 10, 5, 1, OrderType::Buy));
    pool.add_order(order("a", 10, 5, 15, OrderType::Buy));
    pool.add_order(order("keep2", 10, 5, 15, OrderType::Buy));
    pool.remove_order_by_price("a", 10, OrderType::Buy);
    assert_eq!(sorted_ids(&pool.get_orders_by_price(10, OrderType::Buy)), vec!["keep1", "keep2"]);
}

#[test]
fn pool_detailed_info_reports_each_shard() {
    let mut pool = ShardedOrderPool::new(vec![range(0, 100, 0, 10), range(0, 100, 11, 20)]);
    pool.add_order(order("a", 10, 5, 1, OrderType::Buy));
    pool.add_order(order("b", 30, 5, 1, OrderType::Buy));
    pool.add_order(order("c", 70, 5, 12, OrderType::Sell));
    let info = pool.get_detailed_order_info_per_shard();
    assert_eq!(info.len(), 2);
    assert_eq!(info[0].shard_index, 0);
    assert_eq!(info[0].buy_orders_count, 2);
    assert_eq!(info[0].sell_orders_count, 0);
    assert_eq!(info[0].buy_price_range, Some((10, 30)));
    assert_eq!(info[0].sell_price_range, None);
    assert_eq!(info[1].sell_orders_count, 1);
    assert_eq!(info[1].sell_price_range, Some((70, 70)));
    assert_eq!(info[1].time_range, None);
    pool.clear_orders();
    assert!(pool.get_best_buy_orders().is_empty());
}

#[test]
fn pool_select_batch_pairs_crossing_available_orders() {
    let mut pool = ShardedOrderPool::new(vec![range(0, 100, 0, 10)]);
    pool.add_order(order("b1", 50, 1, 1, OrderType::Buy));
    pool.add_order(order("b2", 20, 1, 1, OrderType::Buy));
    let mut taken = order("b0", 90, 1, 1, OrderType::Buy);
    taken.status = Some(OrderStatus::PartiallyMatched);
    pool.add_order(taken);
    pool.add_order(order("s1", 30, 1, 1, OrderType::Sell));
    pool.add_order(order("s2", 40, 1, 1, OrderType::Sell));
    let batch = pool.select_batch(10);
    assert_eq!(ids(&batch), vec!["b1", "s1"]);
    assert!(pool.select_batch(0).is_empty());
}

#[test]
fn manager_applies_messages() {
    let now_ish: u64 = 1_700_000_000;
    let mut manager = OrderManager::new(now_ish);
    manager.handle_message(OrderManagerMessage::AddOrder(order("a", 10, 1, now_ish, OrderType::Buy)));
    manager.add_order(order("b", 10, 1, now_ish, OrderType::Buy));
    assert_eq!(manager.get_buy_orders_count(), 2);
    assert_eq!(manager.get_sell_orders_count(), 0);
    assert_eq!(manager.get_total_orders_count(), 2);
    manager.handle_message(OrderManagerMessage::RemoveOrder {
        order_id: "a".to_string(),
        price: 10,
        order_type: OrderType::Buy,
    });
    assert_eq!(ids(&manager.get_orders(10, OrderType::Buy)), vec!["b"]);
    manager.handle_message(OrderManagerMessage::ClearAndAddOrders(vec![order(
        "c",
        20,
        1,
        now_ish,
        OrderType::Sell,
    )]));
    assert_eq!(manager.get_buy_orders_count(), 0);
    assert_eq!(ids(&manager.get_all_sell_orders()), vec!["c"]);
    manager.clear_orders();
    assert_eq!(manager.get_total_orders_count(), 0);
}

#[test]
fn matching_fills_the_smaller_side_and_keeps_the_rest() {
    let buys = vec![order("b1", 100, 5, 1, OrderType::Buy), order("b2", 90, 5, 1, OrderType::Buy)];
    let sells = vec![order("s1", 80, 3, 1, OrderType::Sell), order("s2", 95, 10, 1, OrderType::Sell)];
    let matches = match_orders(buys, sells);
    let pairs: Vec<(String, String, u128, u128)> =
        matches.iter().map(|(b, s)| (b.id.clone(), s.id.clone(), b.amount, s.amount)).collect();
    assert_eq!(
        pairs,
        vec![
            ("b1".to_string(), "s1".to_string(), 5, 3),
            ("b1".to_string(), "s2".to_string(), 2, 10),
        ]
    );
    for (b, s) in &matches {
        assert!(b.price >= s.price);
    }
}

#[test]
fn matching_prefers_later_buys_and_earlier_sells_at_equal_price() {
    let buys = vec![order("early", 100, 1, 1, OrderType::Buy), order("late", 100, 1, 2, OrderType::Buy)];
    let sells = vec![order("s_late", 50, 1, 9, OrderType::Sell), order("s_early", 50, 1, 3, OrderType::Sell)];
    let matches = match_orders(buys, sells);
    assert_eq!(matches[0].0.id, "late");
    assert_eq!(matches[0].1.id, "s_early");
    assert_eq!(matches.len(), 2);
}

#[test]
fn batches_cut_matches_in_order() {
    let buys = vec![
        order("b1", 100, 1, 1, OrderType::Buy),
        order("b2", 100, 1, 2, OrderType::Buy),
        order("b3", 100, 1, 3, OrderType::Buy),
    ];
    let sells = vec![
        order("s1", 10, 1, 1, OrderType::Sell),
        order("s2", 10, 1, 2, OrderType::Sell),
        order("s3", 10, 1, 3, OrderType::Sell),
    ];
    let matches = match_orders(buys, sells);
    assert_eq!(matches.len(), 3);
    let batches = batch_matches(matches.clone(), 2);
    assert_eq!(batches.len(), 2);
    assert_eq!(batches[0].len(), 2);
    assert_eq!(batches[1].len(), 1);
    let flat: Vec<String> = batches.iter().flatten().map(|(b, _)| b.id.clone()).collect();
    let direct: Vec<String> = matches.iter().map(|(b, _)| b.id.clone()).collect();
    assert_eq!(flat, direct);
    assert_eq!(batch_matches(matches.clone(), 0).len(), 1);
    assert_eq!(batch_matches(matches.clone(), 3).len(), 1);
    assert!(batch_matches(Vec::new(), 2).is_empty());
}

#[test]
fn consensus_keeps_ids_seen_twice_with_their_last_order() {
    let orders = vec![
        order("a", 10, 1, 1, OrderType::Buy),
        order("b", 10, 1, 1, OrderType::Buy),
        order("a", 10, 7, 1, OrderType::Buy),
        order("c", 10, 1, 1, OrderType::Buy),
        order("c", 10, 3, 1, OrderType::Buy),
    ];
    let agreed = orders_with_consensus(orders);
    assert_eq!(ids(&agreed), vec!["a", "c"]);
    assert_eq!(agreed[0].amount, 7);
    assert_eq!(agreed[1].amount, 3);
}

#[test]
fn aggregator_reads_only_active_indexers() {
    let t: u64 = 1_700_000_000;
    let mut envio = OrderManager::new(t);
    envio.add_order(order("x", 10, 1, t, OrderType::Buy));
    envio.add_order(order("y", 5, 1, t, OrderType::Sell));
    let mut pangea = OrderManager::new(t);
    pangea.add_order(order("x", 10, 1, t, OrderType::Buy));
    let mut idle = OrderManager::new(t);
    idle.add_order(order("z", 10, 1, t, OrderType::Buy));
    let aggregator = Aggregator::new(
        vec![("envio".to_string(), envio), ("pangea".to_string(), pangea), ("idle".to_string(), idle)],
        vec!["envio".to_string(), "pangea".to_string()],
    );
    assert_eq!(ids(&aggregator.get_aggregated_orders(OrderType::Buy)), vec!["x", "x"]);
    assert_eq!(ids(&aggregator.get_all_aggregated_orders()), vec!["x", "y", "x"]);
    let matches = aggregator.select_matching_orders();
    assert_eq!(matches.len(), 1);
    assert_eq!((matches[0].0.id.as_str(), matches[0].1.id.as_str()), ("x", "y"));
    assert_eq!(aggregator.select_matching_batches(5).len(), 1);
}

#[test]
fn aggregator_with_three_indexers_takes_consensus() {
    let t: u64 = 1_700_000_000;
    let mut a = OrderManager::new(t);
    a.add_order(order("x", 10, 1, t, OrderType::Sell));
    a.add_order(order("only_a", 11, 1, t, OrderType::Sell));
    let mut b = OrderManager::new(t);
    b.add_order(order("x", 10, 1, t, OrderType::Sell));
    let c = OrderManager::new(t);
    let aggregator = Aggregator::new(
        vec![("a".to_string(), a), ("b".to_string(), b), ("c".to_string(), c)],
        vec!["a".to_string(), "b".to_string(), "c".to_string()],
    );
    assert_eq!(ids(&aggregator.get_aggregated_orders(OrderType::Sell)), vec!["x"]);
}

#[test]
fn shard_remove_matched_orders_drops_emptied_levels() {
    let mut shard = OrderShard::new();
    shard.add_order(order("a", 10, 1, 1, OrderType::Buy));
    shard.add_order(order("b", 10, 1, 1, OrderType::Buy));
    shard.add_order(order("c", 20, 1, 1, OrderType::Buy));
    shard.add_order(order("d", 30, 1, 1, OrderType::Sell));
    shard.remove_matched_orders(&vec!["a".to_string(), "c".to_string(), "d".to_string()]);
    assert_eq!(ids(&shard.get_best_buy_orders()), vec!["b"]);
    assert_eq!(shard.get_buy_price_range(), Some((10, 10)));
    assert_eq!(shard.get_sell_price_range(), None);
    assert_eq!(shard.get_sell_order_count(), 0);
}

#[test]
fn aggregator_removes_matched_orders_from_every_manager() {
    let t: u64 = 1_700_000_000;
    let mut active = OrderManager::new(t);
    active.add_order(order("x", 10, 1, t, OrderType::Buy));
    active.add_order(order("y", 12, 1, t, OrderType::Sell));
    let mut idle = OrderManager::new(t);
    idle.add_order(order("x", 10, 1, t, OrderType::Buy));
    idle.add_order(order("z", 10, 1, t, OrderType::Buy));
    let mut aggregator = Aggregator::new(
        vec![("a".to_string(), active), ("i".to_string(), idle)],
        vec!["a".to_string()],
    );
    aggregator.remove_matched_orders(vec!["x".to_string()]);
    assert!(aggregator.order_managers[0].1.get_all_buy_orders().is_empty());
    assert_eq!(ids(&aggregator.order_managers[0].1.get_all_sell_orders()), vec!["y"]);
    assert_eq!(ids(&aggregator.order_managers[1].1.get_all_buy_orders()), vec!["z"]);
}

#[test]
fn pool_remove_after_add_leaves_no_order() {
    let mut pool = ShardedOrderPool::new(vec![range(0, 100, 0, 10)]);
    pool.add_order(order("keep", 10, 1, 1, OrderType::Buy));
    pool.add_order(order("a", 10, 1, 1, OrderType::Buy));
    assert_eq!(sorted_ids(&pool.get_orders_by_price_and_time(10, 1, OrderType::Buy)), vec!["a", "keep"]);
    pool.remove_order("a", 10, 1, OrderType::Buy);
    assert_eq!(ids(&pool.get_orders_by_price_and_time(10, 1, OrderType::Buy)), vec!["keep"]);
}

#[test]
fn aggregator_batches_hold_the_same_pairs_as_one_selection() {
    let t: u64 = 1_700_000_000;
    let mut a = OrderManager::new(t);
    a.add_order(order("b1", 12, 5, t, OrderType::Buy));
    a.add_order(order("b2", 12, 3, t - 1, OrderType::Buy));
    a.add_order(order("b3", 11, 4, t - 2, OrderType::Buy));
    a.add_order(order("s1", 10, 2, t, OrderType::Sell));
    a.add_order(order("s2", 10, 6, t - 1, OrderType::Sell));
    a.add_order(order("s3", 11, 9, t - 2, OrderType::Sell));
    let aggregator = Aggregator::new(vec![("a".to_string(), a)], vec!["a".to_string()]);
    let pairs = aggregator.select_matching_orders();
    let key = |p: &(SpotOrder, SpotOrder)| (p.0.id.clone(), p.0.amount, p.1.id.clone(), p.1.amount);
    let expected: Vec<_> = pairs.iter().map(key).collect();
    assert!(expected.len() >= 3);
    for size in [0usize, 1, 2, 5] {
        let batches = aggregator.select_matching_batches(size);
        let joined: Vec<_> = batches.concat().iter().map(key).collect();
        assert_eq!(joined, expected);
    }
}

#[test]
fn shard_update_of_an_absent_order_changes_nothing() {
    let mut shard = OrderShard::new();
    shard.add_order(order("a", 10, 5, 1, OrderType::Sell));
    shard.update_order("gone", 10, 0, Some(OrderStatus::Matched), OrderType::Sell);
    shard.update_order("a", 11, 0, None, OrderType::Sell);
    let at = shard.get_orders_by_price_and_time(10, 0, OrderType::Sell);
    assert_eq!(ids(&at), vec!["a"]);
    assert_eq!(at[0].amount, 5);
    assert_eq!(at[0].status, Some(OrderStatus::New));
    assert_eq!(shard.get_sell_price_range(), Some((10, 10)));
}
