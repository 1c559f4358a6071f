pub mod batch_processor;
pub mod manager;
pub mod types;
pub mod websocket;
pub mod serving;
