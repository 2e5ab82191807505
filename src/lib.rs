//! Limit-order book matching engine: per-symbol price-time books, a symbol registry, and
//! the reading of input records into requests.

pub mod book_side;
pub mod config;
pub mod laws;
pub mod order;
pub mod order_book;
pub mod order_books;
pub mod order_result;
pub mod record;
pub mod text;
