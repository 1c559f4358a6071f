pub mod envio;
pub mod subsquid;
