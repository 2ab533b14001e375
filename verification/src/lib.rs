//! The verified core of a proxy engine: address and header codecs, the TLS 1.3
//! and QUIC client state machines, WebSocket framing and the control API.
//!
//! Everything here computes on plain values. Sockets and clocks live in the application
//! around the library.

pub mod crypto;
pub mod der;
pub mod engine;
pub mod json;
pub mod letters;
pub mod net;
pub mod text;
pub mod types;
pub mod wire;
pub mod x509;

pub mod protocol;
pub mod rpc;
