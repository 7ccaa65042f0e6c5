//! Binary protocol codec for a Minecraft-style wire protocol.
//!
//! The crate converts JSON registry definitions into the compact tagged
//! binary form sent to clients during login, and defines the byte framing
//! of the first packets exchanged on a connection: variable-length
//! integers, length-prefixed strings, the handshake packet and the legacy
//! server-list ping.

pub mod error;
pub mod json;
pub mod nbt;
pub mod convert;
pub mod encode;
pub mod wire;
pub mod packets;
pub mod registry;
