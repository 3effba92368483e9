//! Resting-order storage for a single instrument: orders, their ranking keys
//! and a book that keeps both sides in price-time priority.

pub mod amount;
pub mod order;
pub mod ranking;
pub mod book_model;
pub mod order_book;

pub use amount::Amount;
pub use order::{Order, OrderSide, OrderSortKey, OrderTimeInForce, OrderType};
pub use order_book::OrderBook;
