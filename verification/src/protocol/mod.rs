//! Wire protocols.

pub mod address;
pub mod error;
pub mod huffman;
pub mod opening;
pub mod qpack;
pub mod quic;
pub mod reality;
pub mod tls13;
pub mod transport;
pub mod ws;
