//! Verified decision logic of the memecoin launch oracle.

pub mod addresses;
pub mod backoff;
pub mod breaker;
pub mod bundles;
pub mod chain_data;
pub mod classification;
pub mod early_pump;
pub mod holder_growth;
pub mod scoring;
pub mod text;
pub mod trending;
pub mod wallet_graph;
