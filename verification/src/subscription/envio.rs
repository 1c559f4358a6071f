//! GraphQL subscriptions to the active orders of the Envio indexer.
use crate::indexer::spot_order::OrderType;
use vstd::prelude::*;
use vstd::string::*;

verus! {

/// Opening of the subscription, before the order list's name.
pub const SUBSCRIPTION_HEAD: &'static str = "subscription {\n            ";

/// Between the order list's name and the limit.
pub const SUBSCRIPTION_LIMIT: &'static str = "(\n                limit: ";

/// After the limit: the fields asked for.
pub const SUBSCRIPTION_TAIL: &'static str = "\n            ) {\n                id\n                user\n                timestamp\n                order_type\n                amount\n                asset\n                price\n            }\n        }";

/// Opening of the older subscription form, before the limit.
pub const OLD_SUBSCRIPTION_HEAD: &'static str = "subscription {\n            Order(\n                limit: ";

/// Between the limit and the side.
pub const OLD_SUBSCRIPTION_SIDE: &'static str = ", \n                where: { status: {_eq: \"Active\"}, order_type: {_eq: \"";

/// Between the side and the price ordering.
pub const OLD_SUBSCRIPTION_ORDER: &'static str = "\"} }, \n                order_by: {price: ";

/// After the price ordering: the fields asked for.
pub const OLD_SUBSCRIPTION_TAIL: &'static str = "}\n            ) {\n                id\n                user\n                timestamp\n                order_type\n                amount\n                asset\n                price\n            }\n        }";

/// The order list subscribed to for a side.
pub open spec fn active_order_list(order_type: OrderType) -> Seq<char> {
    match order_type {
        OrderType::Sell => "ActiveSellOrder"@,
        OrderType::Buy => "ActiveBuyOrder"@,
    }
}

/// The side and price ordering of the older subscription form: sells ascending, buys
/// descending.
pub open spec fn old_side_and_order(order_type: OrderType) -> (Seq<char>, Seq<char>) {
    match order_type {
        OrderType::Sell => ("Sell"@, "asc"@),
        OrderType::Buy => ("Buy"@, "desc"@),
    }
}

/// The subscription to the active orders of a side, at most `limit` of them (`limit` being
/// the `FETCH_ORDER_LIMIT` setting, empty when unset).
pub fn format_graphql_subscription(order_type: OrderType, limit: &str) -> (r: String)
    ensures
        r@ == SUBSCRIPTION_HEAD@ + active_order_list(order_type) + SUBSCRIPTION_LIMIT@ + limit@
            + SUBSCRIPTION_TAIL@,
{
    let order_type_str = match order_type {
        OrderType::Sell => "ActiveSellOrder",
        OrderType::Buy => "ActiveBuyOrder",
    };
    let mut r = SUBSCRIPTION_HEAD.to_owned();
    r.append(order_type_str);
    r.append(SUBSCRIPTION_LIMIT);
    r.append(limit);
    r.append(SUBSCRIPTION_TAIL);
    r
}

/// The older form of the subscription: active orders of a side, best price first, at most
/// `limit` of them.
pub fn format_graphql_subscription_old(order_type: OrderType, limit: &str) -> (r: String)
    ensures
        r@ == OLD_SUBSCRIPTION_HEAD@ + limit@ + OLD_SUBSCRIPTION_SIDE@ + old_side_and_order(
            order_type,
        ).0 + OLD_SUBSCRIPTION_ORDER@ + old_side_and_order(order_type).1 + OLD_SUBSCRIPTION_TAIL@,
{
    let (order_type_str, order_by) = match order_type {
        OrderType::Sell => ("Sell", "asc"),
        OrderType::Buy => ("Buy", "desc"),
    };
    let mut r = OLD_SUBSCRIPTION_HEAD.to_owned();
    r.append(limit);
    r.append(OLD_SUBSCRIPTION_SIDE);
    r.append(order_type_str);
    r.append(OLD_SUBSCRIPTION_ORDER);
    r.append(order_by);
    r.append(OLD_SUBSCRIPTION_TAIL);
    r
}

} // verus!
