pub mod envio;
pub mod pangea;
pub mod subsquid;
pub mod spot_order;
pub mod order_event_handler;
pub mod pangea_event_handler;
pub mod envio_event_handler;
