//! A time-ordered store of air-quality readings and the protocol that
//! replays and pushes them to dashboard connections.
pub mod config;
pub mod key;
pub mod reading;
pub mod session;
pub mod store;
