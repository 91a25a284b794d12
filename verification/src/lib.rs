//! Order-storage core of a limit-order book.
//!
//! Resting orders are tagged as bids or asks, grouped by exact price into
//! price levels, and kept in two independent collections, one per side.
//! Nothing is matched, cancelled or removed: the book only grows.
//!
//! Prices and sizes are binary64 numbers, taken by their bit patterns. A
//! price is quantized into a fixed-point key with five fractional decimal
//! digits, so that prices can be compared and looked up exactly; a size is
//! carried as it is.
//!
//! - [`binary64`] reads a bit pattern as the exact number it denotes.
//! - [`rounding`] rounds an exact product to binary64 precision.
//! - [`price`] quantizes a number into a [`price::Price`].
//! - [`order`] holds one order's side and size.
//! - [`limit`] gathers the orders resting at one price.
//! - [`orderbook`] routes each order to the level of its price and side.

pub mod binary64;
pub mod limit;
pub mod order;
pub mod orderbook;
pub mod price;
pub mod rounding;
