//! Richat: streaming of Solana Geyser notifications.
//!
//! The verified core of the project: the protobuf wire encoding of plugin
//! messages, the bounded message channel between the plugin and its
//! subscribers, the subscription filter limits, and the small protocol and
//! configuration rules used by the servers and clients around them.
use vstd::prelude::*;

pub mod wire;
pub mod plugin;
pub mod channel;
pub mod encoding;
pub mod filter;
pub mod transport;
pub mod client;
pub mod config;
pub mod server;
pub mod transaction;
pub mod request;

verus! {

} // verus!
