pub mod aggregator;
pub mod manager;
pub mod order_pool;
pub mod order_shard;
pub mod picking;
pub mod matching;
