//! Ranking and quota-based selection of auction orders.
//!
//! Strategies score each order with a [`SortingKey`]; [`sort_orders`] ranks a
//! collection by the lexicographic combination of those keys, and
//! [`sort_and_filter_orders`] blends the top picks of each strategy under
//! fractional quotas into one bounded, deduplicated list.
mod clock;
pub mod error;
pub mod key;
pub mod laws;
pub mod order;
pub mod ranking;
pub mod selection;
pub mod strategy;

pub use error::Error;
pub use key::{Ratio, SortingKey};
pub use order::{Address, Order};
pub use ranking::{sort_orders, sort_orders_at};
pub use selection::{sort_and_filter_orders, sort_and_filter_orders_at};
pub use strategy::{
    CreationTimestamp, ExternalPrice, ExternalSurplus, OwnQuotes, SortingStrategy, Strategy,
};
