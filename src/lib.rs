//! Decoding of swap event logs emitted by two exchange contract variants,
//! fixed-point rendering of on-chain integers, and the decision logic of a
//! pair of concurrently consumed log subscriptions.
pub mod fixed_point;
pub mod word;
pub mod schema;
pub mod decoder;
pub mod multiplexer;
