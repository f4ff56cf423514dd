//! Presence tracking for a LAN party: a server-side store of who is playing
//! what, a versioned conditional-read protocol for cheap polling, and the
//! client-side hysteresis state machine that decides when to nag a player
//! with a "everyone else is playing X" notification.

pub mod types;
pub mod order;
pub mod normalize;
pub mod store;
pub mod aggregate;
pub mod metrics;
pub mod service;
pub mod notify;
pub mod poller;
pub mod config;
pub mod httpmeta;
