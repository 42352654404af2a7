//! A threshold dictionary: an ordered collection of (key, value) pairs
//! queried by "smallest stored key strictly greater than the query key",
//! the natural shape of bracketed lookup tables such as tax brackets or
//! rate tiers.
//!
//! The dictionary keeps its entries sorted strictly ascending by key,
//! switches between a linear scan and a binary search depending on the
//! number of entries (a cost knob that provably never changes a result),
//! and resolves out-of-range queries through a configurable default
//! policy.

pub mod model;
pub mod dict;

pub use dict::DefaultPolicy;
pub use dict::ThresholdDict;
pub use dict::DEFAULT_STRATEGY_THRESHOLD;
