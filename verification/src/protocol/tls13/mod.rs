//! A TLS 1.3 client (RFC 8446) whose `ClientHello` shape is data and whose server
//! authentication is a hook.
//!
//! Left out on purpose, and reported where a peer asks for it: early data, a second
//! `ClientHello` after `HelloRetryRequest`, TLS 1.2, certificate compression, client
//! certificates and resumption.

use crate::text::{concat, decimal, owned, push_char, push_decimal};
use vstd::prelude::*;
use vstd::string::*;

pub mod client;
pub mod codec;
pub mod fingerprint;
pub mod flight;
pub mod key_schedule;
pub mod offers;
pub mod record;
pub mod schemes;

verus! {

/// Errors of the TLS 1.3 client.
#[derive(Debug)]
pub enum Tls13Error {
    /// Underlying transport failure.
    Io(String),
    /// The peer violated the handshake protocol.
    Protocol(String),
    /// Server certificate or authentication failure.
    Certificate(String),
    /// The peer sent an alert.
    Alert {
        /// Alert level: 1 is a warning, 2 is fatal.
        level: u8,
        /// Alert description code.
        description: u8,
    },
    /// A required feature was not offered or negotiated.
    Unsupported(String),
    /// Invalid local configuration.
    InvalidConfig(String),
    /// The connection is closed.
    Closed,
}

/// Result of a TLS 1.3 operation.
pub type Result<T> = core::result::Result<T, Tls13Error>;

/// An error as a mathematical value.
#[verifier::ext_equal]
pub enum TlsFault {
    Io(Seq<char>),
    Protocol(Seq<char>),
    Certificate(Seq<char>),
    Alert(u8, u8),
    Unsupported(Seq<char>),
    InvalidConfig(Seq<char>),
    Closed,
}

impl View for Tls13Error {
    type V = TlsFault;

    open spec fn view(&self) -> TlsFault {
        match self {
            Tls13Error::Io(m) => TlsFault::Io(m@),
            Tls13Error::Protocol(m) => TlsFault::Protocol(m@),
            Tls13Error::Certificate(m) => TlsFault::Certificate(m@),
            Tls13Error::Alert { level, description } => TlsFault::Alert(*level, *description),
            Tls13Error::Unsupported(m) => TlsFault::Unsupported(m@),
            Tls13Error::InvalidConfig(m) => TlsFault::InvalidConfig(m@),
            Tls13Error::Closed => TlsFault::Closed,
        }
    }
}

impl TlsFault {
    /// The error in words.
    pub open spec fn text(self) -> Seq<char> {
        match self {
            TlsFault::Io(m) => "TLS I/O error: "@ + m,
            TlsFault::Protocol(m) => "TLS protocol error: "@ + m,
            TlsFault::Certificate(m) => "TLS certificate error: "@ + m,
            TlsFault::Alert(level, description) => "TLS alert (level "@ + decimal(level as nat)
                + ", description "@ + decimal(description as nat) + seq![')'],
            TlsFault::Unsupported(m) => "TLS unsupported: "@ + m,
            TlsFault::InvalidConfig(m) => "TLS invalid config: "@ + m,
            TlsFault::Closed => "TLS connection closed"@,
        }
    }
}

impl Tls13Error {
    /// The error in words.
    pub fn message(&self) -> (r: String)
        ensures
            r@ == self@.text(),
    {
        match self {
            Tls13Error::Io(m) => concat("TLS I/O error: ", m.as_str()),
            Tls13Error::Protocol(m) => concat("TLS protocol error: ", m.as_str()),
            Tls13Error::Certificate(m) => concat("TLS certificate error: ", m.as_str()),
            Tls13Error::Alert { level, description } => {
                let mut r = owned("TLS alert (level ");
                push_decimal(&mut r, *level as u64);
                r.append(", description ");
                push_decimal(&mut r, *description as u64);
                push_char(&mut r, ')');
                proof {
                    assert(r@ =~= self@.text());
                }
                r
            },
            Tls13Error::Unsupported(m) => concat("TLS unsupported: ", m.as_str()),
            Tls13Error::InvalidConfig(m) => concat("TLS invalid config: ", m.as_str()),
            Tls13Error::Closed => owned("TLS connection closed"),
        }
    }
}

pub(crate) fn protocol(m: &str) -> (e: Tls13Error)
    ensures
        e@ == TlsFault::Protocol(m@),
{
    Tls13Error::Protocol(owned(m))
}

pub(crate) fn unsupported(m: &str) -> (e: Tls13Error)
    ensures
        e@ == TlsFault::Unsupported(m@),
{
    Tls13Error::Unsupported(owned(m))
}

pub(crate) fn certificate(m: &str) -> (e: Tls13Error)
    ensures
        e@ == TlsFault::Certificate(m@),
{
    Tls13Error::Certificate(owned(m))
}

pub(crate) fn invalid_config(m: &str) -> (e: Tls13Error)
    ensures
        e@ == TlsFault::InvalidConfig(m@),
{
    Tls13Error::InvalidConfig(owned(m))
}

} // verus!
