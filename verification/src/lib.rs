//! Aggregation of the answers that several Ethereum JSON-RPC providers give to one query.

pub mod client;
pub mod eth_rpc;
pub mod key;
pub mod laws;
pub mod laws_calls;
pub mod laws_outcomes;
pub mod laws_queries;
pub mod laws_reduce;
pub mod majority;
pub mod multi_call;
pub mod ordered;
pub mod providers;
