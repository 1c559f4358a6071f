pub mod order_book;
pub mod matching_orders;
pub mod order_storage;
