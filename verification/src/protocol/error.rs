//! Errors of the proxy protocols.

use crate::text::{concat, owned, push_decimal, decimal};
use vstd::prelude::*;
use vstd::string::*;

verus! {

/// What can go wrong in a proxy protocol.
#[derive(Debug)]
pub enum ProtocolError {
    Tls(String),
    WireGuard(String),
    Crypto(String),
    Handshake(String),
    Network(String),
    Io(String),
    InvalidConfig(String),
    AuthFailed,
    Protocol(String),
    ConnectionClosed,
    Timeout,
    AddressParse(String),
    UnsupportedAddressType(u8),
    BufferTooSmall,
}

/// Result of a protocol operation.
pub type Result<T> = core::result::Result<T, ProtocolError>;

impl ProtocolError {
    /// The error in words.
    pub open spec fn text(self) -> Seq<char> {
        match self {
            ProtocolError::Tls(m) => "TLS error: "@ + m@,
            ProtocolError::WireGuard(m) => "WireGuard error: "@ + m@,
            ProtocolError::Crypto(m) => "Crypto error: "@ + m@,
            ProtocolError::Handshake(m) => "Handshake error: "@ + m@,
            ProtocolError::Network(m) => "Network error: "@ + m@,
            ProtocolError::Io(m) => "IO error: "@ + m@,
            ProtocolError::InvalidConfig(m) => "Invalid configuration: "@ + m@,
            ProtocolError::AuthFailed => "Authentication failed"@,
            ProtocolError::Protocol(m) => "Protocol error: "@ + m@,
            ProtocolError::ConnectionClosed => "Connection closed"@,
            ProtocolError::Timeout => "Timeout"@,
            ProtocolError::AddressParse(m) => "Address parse error: "@ + m@,
            ProtocolError::UnsupportedAddressType(t) => "Unsupported address type: "@ + decimal(
                t as nat,
            ),
            ProtocolError::BufferTooSmall => "Buffer too small"@,
        }
    }

    /// The error in words.
    pub fn message(&self) -> (r: String)
        ensures
            r@ == self.text(),
    {
        match self {
            ProtocolError::Tls(m) => concat("TLS error: ", m.as_str()),
            ProtocolError::WireGuard(m) => concat("WireGuard error: ", m.as_str()),
            ProtocolError::Crypto(m) => concat("Crypto error: ", m.as_str()),
            ProtocolError::Handshake(m) => concat("Handshake error: ", m.as_str()),
            ProtocolError::Network(m) => concat("Network error: ", m.as_str()),
            ProtocolError::Io(m) => concat("IO error: ", m.as_str()),
            ProtocolError::InvalidConfig(m) => concat("Invalid configuration: ", m.as_str()),
            ProtocolError::AuthFailed => owned("Authentication failed"),
            ProtocolError::Protocol(m) => concat("Protocol error: ", m.as_str()),
            ProtocolError::ConnectionClosed => owned("Connection closed"),
            ProtocolError::Timeout => owned("Timeout"),
            ProtocolError::AddressParse(m) => concat("Address parse error: ", m.as_str()),
            ProtocolError::UnsupportedAddressType(t) => {
                let mut r = owned("Unsupported address type: ");
                push_decimal(&mut r, *t as u64);
                r
            },
            ProtocolError::BufferTooSmall => owned("Buffer too small"),
        }
    }
}

} // verus!
