//! Order book, order matching and event handling for a spot-market indexer.
pub mod text;
pub mod prices;
pub mod json;
pub mod indexer;
pub mod storage;
pub mod matchers;
pub mod subscription;
pub mod web;
pub mod config;
pub mod middleware;
