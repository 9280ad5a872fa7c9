//! Verified core of a Wormhole rendezvous client: application configuration,
//! the server welcome, the code grammar, the handshake state machine and the
//! per-phase bookkeeping of an established channel.

pub mod channel;
pub mod code;
pub mod config;
pub mod error;
pub mod handshake;
pub mod welcome;

pub use config::AppConfig;
pub use error::WormholeError;
pub use welcome::WormholeWelcome;
