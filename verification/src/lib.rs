//! Gating layers for a cross-chain NFT relay: an authorization gate for
//! inbound packets (trusted origin, channel and class allow-lists) and a
//! block-height-keyed rate limiter for outbound submissions.

pub mod order;
pub mod store;
pub mod incoming;
pub mod rate_limit;
