//! Encrypted peer-to-peer transport: peer addresses, the three-act
//! Noise handshake, and the length-prefixed authenticated framing that
//! follows it.

pub mod address;
pub mod bytes;
pub mod connection;
pub mod crypto;
pub mod handshake;
pub mod transport;
