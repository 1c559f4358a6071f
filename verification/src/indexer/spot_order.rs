//! The order record shared by every part of the service, and its ordering.
use std::cmp::Ordering;
use vstd::prelude::*;
use vstd::std_specs::cmp::PartialEqSpecImpl;
use vstd::std_specs::cmp::PartialOrdSpecImpl;

verus! {

/// Side of an order.
#[derive(Debug, PartialEq, Eq, Clone, Copy, Structural)]
pub enum OrderType {
    Buy,
    Sell,
}

/// Time-in-force of an order.
#[derive(Debug, PartialEq, Eq, Clone, Copy, Structural)]
pub enum LimitType {
    FOK,
    IOC,
    GTC,
    MKT,
}

/// Life-cycle state of an order.
#[derive(Debug, PartialEq, Eq, Clone, Copy, Structural)]
pub enum OrderStatus {
    New,
    PartiallyMatched,
    Matched,
    Cancelled,
    Failed,
}

/// A resting order of the spot market.
#[derive(Debug)]
pub struct SpotOrder {
    pub id: String,
    pub user: String,
    pub asset: String,
    pub amount: u128,
    pub price: u128,
    pub timestamp: u64,
    pub order_type: OrderType,
    pub limit_type: Option<LimitType>,
    pub status: Option<OrderStatus>,
}

impl Clone for SpotOrder {
    fn clone(&self) -> (r: Self)
        ensures
            r == *self,
    {
        SpotOrder {
            id: self.id.clone(),
            user: self.user.clone(),
            asset: self.asset.clone(),
            amount: self.amount,
            price: self.price,
            timestamp: self.timestamp,
            order_type: self.order_type,
            limit_type: self.limit_type,
            status: self.status,
        }
    }
}

/// Two orders compare equal when they have the same price.
impl PartialEq for SpotOrder {
    fn eq(&self, other: &Self) -> (r: bool) {
        self.price == other.price
    }
}

impl PartialEqSpecImpl for SpotOrder {
    open spec fn obeys_eq_spec() -> bool {
        true
    }

    open spec fn eq_spec(&self, other: &Self) -> bool {
        self.price == other.price
    }
}

impl Eq for SpotOrder {

}

/// The side named by a string: `"Buy"` or `"Sell"`.
pub open spec fn order_type_named(s: Seq<char>) -> Option<OrderType> {
    if s == "Buy"@ {
        Some(OrderType::Buy)
    } else if s == "Sell"@ {
        Some(OrderType::Sell)
    } else {
        None
    }
}

/// The side named by an optional string.
pub open spec fn opt_order_type_named(s: Option<String>) -> Option<OrderType> {
    match s {
        Some(x) => order_type_named(x@),
        None => None,
    }
}

/// Reads `"Buy"` or `"Sell"`.
pub fn order_type_from_str(s: &str) -> (r: Option<OrderType>)
    ensures
        r == order_type_named(s@),
{
    if crate::text::str_eq(s, "Buy") {
        Some(OrderType::Buy)
    } else if crate::text::str_eq(s, "Sell") {
        Some(OrderType::Sell)
    } else {
        None
    }
}

/// The order of two orders: by price, then by timestamp.
pub open spec fn price_time_order(a: &SpotOrder, b: &SpotOrder) -> Ordering {
    if a.price < b.price {
        Ordering::Less
    } else if a.price > b.price {
        Ordering::Greater
    } else if a.timestamp < b.timestamp {
        Ordering::Less
    } else if a.timestamp > b.timestamp {
        Ordering::Greater
    } else {
        Ordering::Equal
    }
}

impl SpotOrder {
    /// Compares by price, then by timestamp.
    pub fn cmp(&self, other: &Self) -> (r: Ordering)
        ensures
            r == price_time_order(self, other),
    {
        if self.price < other.price {
            Ordering::Less
        } else if self.price > other.price {
            Ordering::Greater
        } else if self.timestamp < other.timestamp {
            Ordering::Less
        } else if self.timestamp > other.timestamp {
            Ordering::Greater
        } else {
            Ordering::Equal
        }
    }
}

impl PartialOrd for SpotOrder {
    fn partial_cmp(&self, other: &Self) -> (r: Option<Ordering>) {
        Some(self.cmp(other))
    }
}

impl PartialOrdSpecImpl for SpotOrder {
    open spec fn obeys_partial_cmp_spec() -> bool {
        true
    }

    open spec fn partial_cmp_spec(&self, other: &Self) -> Option<Ordering> {
        Some(price_time_order(self, other))
    }
}

} // verus!
