//! The Pangea indexer: which chain and node to read, the block to resume from, and the
//! decisions of the listener that follows new order events and reconnects when it loses
//! them.
use crate::indexer::order_event_handler::{handle_order_event, order_event_effect, PangeaOrderEvent};
use crate::storage::matching_orders::MatchingOrders;
use crate::storage::order_book::OrderBook;
use crate::text::str_eq;
use vstd::prelude::*;

verus! {

/// The chains the indexer reads.
#[derive(Debug, PartialEq, Eq, Clone, Copy, Structural)]
pub enum FuelChain {
    Fuel,
    FuelTestnet,
}

/// The chain a `CHAIN` setting names: `FUEL` for the main chain, anything else for the test
/// chain.
pub fn chain_from_setting(name: &str) -> (r: FuelChain)
    ensures
        r == (if name@ == "FUEL"@ {
            FuelChain::Fuel
        } else {
            FuelChain::FuelTestnet
        }),
{
    if str_eq(name, "FUEL") {
        FuelChain::Fuel
    } else {
        FuelChain::FuelTestnet
    }
}

/// The node asked for the latest block of a chain.
pub open spec fn provider_url_of(chain: FuelChain) -> Seq<char> {
    match chain {
        FuelChain::Fuel => "mainnet.fuel.network"@,
        FuelChain::FuelTestnet => "testnet.fuel.network"@,
    }
}

/// The node asked for the latest block of a chain.
pub fn provider_url(chain: FuelChain) -> (r: &'static str)
    ensures
        r@ == provider_url_of(chain),
{
    match chain {
        FuelChain::Fuel => "mainnet.fuel.network",
        FuelChain::FuelTestnet => "testnet.fuel.network",
    }
}

/// The block the live listening starts after: the last block of the historical sync, or the
/// contract's first block when that sync reports none.
pub fn resume_block(last_processed_block: i64, contract_start_block: i64) -> (r: i64)
    ensures
        r == (if last_processed_block == 0 {
            contract_start_block
        } else {
            last_processed_block
        }),
{
    if last_processed_block == 0 {
        contract_start_block
    } else {
        last_processed_block
    }
}

/// The longest wait between two connection attempts, in seconds.
pub const MAX_BACKOFF_SECS: u64 = 60;

/// The state of the live listener: the last block whose event it processed, and the wait
/// before its next connection attempt, in seconds.
#[derive(Debug, PartialEq, Eq, Clone, Copy, Structural)]
pub struct PangeaListener {
    pub last_processed_block: i64,
    pub retry_delay_secs: u64,
}

impl PangeaListener {
    /// A listener resuming after `last_processed_block`, waiting a second before its first
    /// retry.
    pub fn new(last_processed_block: i64) -> (r: Self)
        ensures
            r.last_processed_block == last_processed_block,
            r.retry_delay_secs == 1,
    {
        Self { last_processed_block, retry_delay_secs: 1 }
    }

    /// The first block a new stream asks for: the one after the last processed.
    pub fn from_block(&self) -> (r: i64)
        requires
            self.last_processed_block < i64::MAX,
        ensures
            r == self.last_processed_block + 1,
    {
        self.last_processed_block + 1
    }

    /// A stream is open: the wait before a retry goes back to a second.
    pub fn on_stream_opened(&mut self)
        ensures
            final(self).last_processed_block == old(self).last_processed_block,
            final(self).retry_delay_secs == 1,
    {
        self.retry_delay_secs = 1;
    }

    /// An order event arrives at `now_millis`: its block becomes the last processed, and the
    /// event is applied to the book and the matching set, new orders stamped `now_millis`.
    pub fn process_order_data(
        &mut self,
        order_book: &mut OrderBook,
        matching_orders: &mut MatchingOrders,
        event: PangeaOrderEvent,
        now_millis: u64,
    )
        requires
            old(order_book).wf(),
            old(matching_orders).wf(),
        ensures
            final(self).last_processed_block == event.block_number,
            final(self).retry_delay_secs == old(self).retry_delay_secs,
            final(order_book).wf(),
            final(matching_orders).wf(),
            order_event_effect(
                old(order_book)@,
                old(matching_orders)@,
                event,
                now_millis,
                final(order_book)@,
                final(matching_orders)@,
            ),
    {
        self.last_processed_block = event.block_number;
        handle_order_event(order_book, matching_orders, event, now_millis);
    }

    /// The stream is lost or could not be opened: the wait before the next attempt is
    /// returned, and the following wait doubles, up to a minute.
    pub fn on_disconnect(&mut self) -> (r: u64)
        ensures
            r == old(self).retry_delay_secs,
            final(self).last_processed_block == old(self).last_processed_block,
            final(self).retry_delay_secs == (if 2 * old(self).retry_delay_secs <= MAX_BACKOFF_SECS {
                2 * old(self).retry_delay_secs
            } else {
                MAX_BACKOFF_SECS as int
            }),
    {
        let delay = self.retry_delay_secs;
        self.retry_delay_secs = if delay <= MAX_BACKOFF_SECS / 2 {
            delay * 2
        } else {
            MAX_BACKOFF_SECS
        };
        delay
    }
}

} // verus!
