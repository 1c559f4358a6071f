//! GraphQL subscription to the active orders of the Subsquid indexer.
use crate::indexer::spot_order::OrderType;
use vstd::prelude::*;
use vstd::string::*;

verus! {

/// Opening of the subscription, before the order list's name.
pub const SUBSCRIPTION_HEAD: &'static str = "\n        subscription {\n            ";

/// Between the order list's name and the limit.
pub const SUBSCRIPTION_LIMIT: &'static str = "(limit: ";

/// After the limit: the fields asked for.
pub const SUBSCRIPTION_TAIL: &'static str = ") {\n                id\n                asset\n                amount\n                orderType\n                price\n                user\n                status\n                initialAmount\n                timestamp\n            }\n        }\n        ";

/// The limit used when the `FETCH_ORDER_LIMIT` setting is unset.
pub const DEFAULT_LIMIT: &'static str = "10";

/// The order list subscribed to for a side.
pub open spec fn active_order_list(order_type: OrderType) -> Seq<char> {
    match order_type {
        OrderType::Sell => "activeSellOrders"@,
        OrderType::Buy => "activeBuyOrders"@,
    }
}

/// The limit asked for: the setting, or 10 when it is unset.
pub open spec fn limit_or_default(limit: Option<Seq<char>>) -> Seq<char> {
    match limit {
        Some(l) => l,
        None => DEFAULT_LIMIT@,
    }
}

/// The subscription to the active orders of a side, at most `limit` of them (`limit` being
/// the `FETCH_ORDER_LIMIT` setting; ten when unset).
pub fn format_graphql_subscription(order_type: OrderType, limit: Option<&str>) -> (r: String)
    ensures
        r@ == SUBSCRIPTION_HEAD@ + active_order_list(order_type) + SUBSCRIPTION_LIMIT@
            + limit_or_default(
            match limit {
                Some(l) => Some(l@),
                None => None,
            },
        ) + SUBSCRIPTION_TAIL@,
{
    let order_type_str = match order_type {
        OrderType::Sell => "activeSellOrders",
        OrderType::Buy => "activeBuyOrders",
    };
    let limit_str = match limit {
        Some(l) => l,
        None => DEFAULT_LIMIT,
    };
    let mut r = SUBSCRIPTION_HEAD.to_owned();
    r.append(order_type_str);
    r.append(SUBSCRIPTION_LIMIT);
    r.append(limit_str);
    r.append(SUBSCRIPTION_TAIL);
    r
}

} // verus!
