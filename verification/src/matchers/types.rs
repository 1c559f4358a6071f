//! Messages exchanged with matchers.
use crate::indexer::spot_order::{OrderStatus, OrderType, SpotOrder};
use vstd::prelude::*;

verus! {

/// A matcher introducing itself.
#[derive(Debug)]
pub struct MatcherConnectRequest {
    pub uuid: String,
}

/// A matcher asking for a batch of orders.
#[derive(Debug)]
pub struct MatcherBatchRequest {
    pub uuid: String,
}

/// What a matcher may send.
#[derive(Debug)]
pub enum MatcherRequest {
    BatchRequest(MatcherBatchRequest),
    OrderUpdates(Vec<MatcherOrderUpdate>),
    Connect(MatcherConnectRequest),
}

/// What a matcher is sent.
#[derive(Debug)]
pub enum MatcherResponse {
    Batch(Vec<SpotOrder>),
    Ack,
    NoOrders,
}

/// A matcher's report on one order.
#[derive(Debug)]
pub struct MatcherOrderUpdate {
    pub order_id: String,
    pub price: u128,
    pub timestamp: u64,
    pub new_amount: u128,
    pub status: Option<OrderStatus>,
    pub order_type: OrderType,
}

impl Clone for MatcherOrderUpdate {
    fn clone(&self) -> (r: Self)
        ensures
            r == *self,
    {
        MatcherOrderUpdate {
            order_id: self.order_id.clone(),
            price: self.price,
            timestamp: self.timestamp,
            new_amount: self.new_amount,
            status: self.status,
            order_type: self.order_type,
        }
    }
}

} // verus!
