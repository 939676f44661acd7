//! The state-transition core of a smart-contract chain: code and account registry, per-contract
//! stores behind a write-buffered overlay, and the rules of each message and query.

pub mod address;
pub mod cache;
pub mod encoding;
pub mod kv;
pub mod msg;
pub mod order;
pub mod state;
