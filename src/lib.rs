//! An immutable, exact-membership set of byte-string keys.
//!
//! Keys are routed into layers of hash buckets, each layer keyed by its own
//! seed; the key bytes themselves are kept once, concatenated and compressed,
//! and every hash hit is confirmed against them before a query answers.
pub mod codec;
pub mod model;
pub mod small_set;

pub use codec::DecodeError;
pub use small_set::SmallSet;
