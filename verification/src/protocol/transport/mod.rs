//! Transports that tunnels run over: TLS and WebSocket.

use vstd::prelude::*;
use vstd::string::*;

pub mod tls;
pub mod websocket;

verus! {

/// Errors of a transport.
#[derive(Debug)]
pub enum TransportError {
    /// The configuration cannot be used.
    InvalidConfig(String),
    /// The handshake failed.
    Handshake(String),
    /// The WebSocket layer failed.
    WebSocket(String),
}

/// Result of a transport operation.
pub type Result<T> = core::result::Result<T, TransportError>;

/// An error as a mathematical value.
#[verifier::ext_equal]
pub enum TransportFault {
    InvalidConfig(Seq<char>),
    Handshake(Seq<char>),
    WebSocket(Seq<char>),
}

impl View for TransportError {
    type V = TransportFault;

    open spec fn view(&self) -> TransportFault {
        match self {
            TransportError::InvalidConfig(m) => TransportFault::InvalidConfig(m@),
            TransportError::Handshake(m) => TransportFault::Handshake(m@),
            TransportError::WebSocket(m) => TransportFault::WebSocket(m@),
        }
    }
}

} // verus!
