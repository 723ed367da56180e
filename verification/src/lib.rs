//! A price-time priority matching engine for a single trading pair.
//!
//! The engine keeps two price-indexed sides of resting limit orders, crosses
//! each incoming order against the opposite side, parks what is left of a
//! limit order on its own side and queues every fill for publication.
//!
//! - `price`, `models`: the value records.
//! - `levels`, `matching`, `engine`: the mathematical model of a side, of a
//!   crossing and of a submission, with the laws that hold of them.
//! - `book_side`, `channel`, `order_book`: the executable engine, whose
//!   contracts are stated over that model.

pub mod book_side;
pub mod channel;
pub mod engine;
pub mod levels;
pub mod matching;
pub mod models;
pub mod order_book;
pub mod price;
