//! Reconstruction of a level-3 limit order book from a historical exchange
//! feed: exact fixed-point prices, the book engine itself, a per-product
//! sequence-number checker, and the locator for archived snapshot files.

pub mod book;
pub mod digits;
pub mod historical;
pub mod price;
pub mod sequence;

pub use price::Price;
