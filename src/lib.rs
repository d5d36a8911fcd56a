//! Order-book aggregation: feed payload normalisation, per-update ranking of
//! price levels, and the decisions taken by feed adapters and subscriber
//! sessions.
pub mod models;
