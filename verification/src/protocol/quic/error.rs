//! Errors of the QUIC client.

use crate::text::{concat, decimal, owned, push_char, push_decimal};
use vstd::prelude::*;
use vstd::string::*;

verus! {

/// Errors produced by the QUIC client transport.
#[derive(Debug, Clone)]
pub enum QuicError {
    /// I/O failure on the UDP socket.
    Io(String),
    /// The peer sent a malformed or protocol-violating packet.
    Protocol(String),
    /// The TLS handshake failed.
    Tls(String),
    /// Certificate validation failed.
    Certificate(String),
    /// The handshake did not complete in time.
    Timeout,
    /// The connection was closed by the peer.
    ClosedByPeer { error_code: u64, reason: String },
    /// The connection was closed locally.
    Closed,
    /// A stream was reset by the peer.
    StreamReset { error_code: u64 },
    /// Flow-control or stream-limit violation.
    StreamLimit,
    /// The datagram exceeds what a single packet can carry. The sender must fragment it.
    DatagramTooLarge,
    /// Invalid configuration.
    InvalidConfig(String),
    /// The idle timeout expired.
    IdleTimeout,
}

/// Result of a QUIC operation.
pub type Result<T> = core::result::Result<T, QuicError>;

/// An error as a mathematical value.
#[verifier::ext_equal]
pub enum QuicFault {
    Io(Seq<char>),
    Protocol(Seq<char>),
    Tls(Seq<char>),
    Certificate(Seq<char>),
    Timeout,
    ClosedByPeer(u64, Seq<char>),
    Closed,
    StreamReset(u64),
    StreamLimit,
    DatagramTooLarge,
    InvalidConfig(Seq<char>),
    IdleTimeout,
}

impl View for QuicError {
    type V = QuicFault;

    open spec fn view(&self) -> QuicFault {
        match self {
            QuicError::Io(m) => QuicFault::Io(m@),
            QuicError::Protocol(m) => QuicFault::Protocol(m@),
            QuicError::Tls(m) => QuicFault::Tls(m@),
            QuicError::Certificate(m) => QuicFault::Certificate(m@),
            QuicError::Timeout => QuicFault::Timeout,
            QuicError::ClosedByPeer { error_code, reason } => QuicFault::ClosedByPeer(
                *error_code,
                reason@,
            ),
            QuicError::Closed => QuicFault::Closed,
            QuicError::StreamReset { error_code } => QuicFault::StreamReset(*error_code),
            QuicError::StreamLimit => QuicFault::StreamLimit,
            QuicError::DatagramTooLarge => QuicFault::DatagramTooLarge,
            QuicError::InvalidConfig(m) => QuicFault::InvalidConfig(m@),
            QuicError::IdleTimeout => QuicFault::IdleTimeout,
        }
    }
}

impl QuicFault {
    /// The error in words.
    pub open spec fn text(self) -> Seq<char> {
        match self {
            QuicFault::Io(m) => "QUIC I/O error: "@ + m,
            QuicFault::Protocol(m) => "QUIC protocol error: "@ + m,
            QuicFault::Tls(m) => "QUIC TLS error: "@ + m,
            QuicFault::Certificate(m) => "QUIC certificate error: "@ + m,
            QuicFault::Timeout => "QUIC handshake timeout"@,
            QuicFault::ClosedByPeer(code, reason) => "QUIC closed by peer (code "@ + decimal(
                code as nat,
            ) + "): "@ + reason,
            QuicFault::Closed => "QUIC connection closed"@,
            QuicFault::StreamReset(code) => "QUIC stream reset by peer (code "@ + decimal(
                code as nat,
            ) + seq![')'],
            QuicFault::StreamLimit => "QUIC stream limit exceeded"@,
            QuicFault::DatagramTooLarge => "QUIC datagram exceeds packet size"@,
            QuicFault::InvalidConfig(m) => "QUIC invalid config: "@ + m,
            QuicFault::IdleTimeout => "QUIC idle timeout"@,
        }
    }
}

impl QuicError {
    /// The error in words.
    pub fn message(&self) -> (r: String)
        ensures
            r@ == self@.text(),
    {
        match self {
            QuicError::Io(m) => concat("QUIC I/O error: ", m.as_str()),
            QuicError::Protocol(m) => concat("QUIC protocol error: ", m.as_str()),
            QuicError::Tls(m) => concat("QUIC TLS error: ", m.as_str()),
            QuicError::Certificate(m) => concat("QUIC certificate error: ", m.as_str()),
            QuicError::Timeout => owned("QUIC handshake timeout"),
            QuicError::ClosedByPeer { error_code, reason } => {
                let mut r = owned("QUIC closed by peer (code ");
                push_decimal(&mut r, *error_code);
                r.append("): ");
                r.append(reason.as_str());
                proof {
                    assert(r@ =~= self@.text());
                }
                r
            },
            QuicError::Closed => owned("QUIC connection closed"),
            QuicError::StreamReset { error_code } => {
                let mut r = owned("QUIC stream reset by peer (code ");
                push_decimal(&mut r, *error_code);
                push_char(&mut r, ')');
                proof {
                    assert(r@ =~= self@.text());
                }
                r
            },
            QuicError::StreamLimit => owned("QUIC stream limit exceeded"),
            QuicError::DatagramTooLarge => owned("QUIC datagram exceeds packet size"),
            QuicError::InvalidConfig(m) => concat("QUIC invalid config: ", m.as_str()),
            QuicError::IdleTimeout => owned("QUIC idle timeout"),
        }
    }

    /// The same error in a value of its own.
    pub fn copy(&self) -> (r: Self)
        ensures
            r@ == self@,
    {
        match self {
            QuicError::Io(m) => QuicError::Io(owned(m.as_str())),
            QuicError::Protocol(m) => QuicError::Protocol(owned(m.as_str())),
            QuicError::Tls(m) => QuicError::Tls(owned(m.as_str())),
            QuicError::Certificate(m) => QuicError::Certificate(owned(m.as_str())),
            QuicError::Timeout => QuicError::Timeout,
            QuicError::ClosedByPeer { error_code, reason } => QuicError::ClosedByPeer {
                error_code: *error_code,
                reason: owned(reason.as_str()),
            },
            QuicError::Closed => QuicError::Closed,
            QuicError::StreamReset { error_code } => QuicError::StreamReset {
                error_code: *error_code,
            },
            QuicError::StreamLimit => QuicError::StreamLimit,
            QuicError::DatagramTooLarge => QuicError::DatagramTooLarge,
            QuicError::InvalidConfig(m) => QuicError::InvalidConfig(owned(m.as_str())),
            QuicError::IdleTimeout => QuicError::IdleTimeout,
        }
    }
}

pub(crate) fn protocol(m: &str) -> (e: QuicError)
    ensures
        e@ == QuicFault::Protocol(m@),
{
    QuicError::Protocol(owned(m))
}

pub(crate) fn tls(m: &str) -> (e: QuicError)
    ensures
        e@ == QuicFault::Tls(m@),
{
    QuicError::Tls(owned(m))
}

} // verus!
