//! A QUIC v1 client (RFC 9000, RFC 9001, RFC 9002) as state machines: bytes and times go
//! in, datagrams and events come out.
//!
//! Early data and connection migration are left out; `disable_active_migration` is
//! advertised. The congestion controller is NewReno.

pub mod ack;
pub mod config;
pub mod crypto_stream;
pub mod effects;
pub mod error;
pub mod frame;
pub mod greeting;
pub mod loss;
pub mod obfs;
pub mod packets;
pub mod params;
pub mod protect;
pub mod ranges;
pub mod recovery;
pub mod space;
pub mod streams;
pub mod tls13;
pub mod transport;
