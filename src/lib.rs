//! Relay connection core of a desktop mail client for the nostr network:
//! the wire codec for relay frames, one session per relay, and the pool that
//! keeps every session subscribed and turns their traffic into one stream.
pub mod client;
pub mod connection;
pub mod error;
pub mod event;
pub mod json;
pub mod message;
mod outside;
pub mod pool;
pub mod subscription;

pub use client::ClientMessage;
pub use connection::{Relay, RelayStatus, WsEvent, WsMessage};
pub use error::{Error, Result};
pub use event::{EventBuilder, EventId, Tag};
pub use message::{CommandResult, RelayEvent, RelayMessage};
pub use pool::{RelayPool, RELAY_PING_SECONDS, RELAY_RECONNECT_SECONDS};
pub use subscription::Subscription;
