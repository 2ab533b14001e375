//! Configuration of a QUIC client connection.

use super::obfs::Salamander;
use crate::net::SocketAddr;
use crate::text::{chars_of, lower_char, owned, same_chars, strings_view, to_lower_char};
use std::sync::Arc;
use vstd::prelude::*;
use vstd::string::*;

verus! {

/// Congestion-control algorithm selection. Every choice drives the same controller.
#[derive(Debug, Clone, Copy, PartialEq, Eq, Structural)]
pub enum CongestionControl {
    Cubic,
    NewReno,
    Bbr,
}

impl Default for CongestionControl {
    fn default() -> (r: Self)
        ensures
            r == CongestionControl::Cubic,
    {
        CongestionControl::Cubic
    }
}

/// A spelling in lower case with `-` for `_`.
pub open spec fn spelled(s: Seq<char>) -> Seq<char> {
    s.map_values(|c: char| if c == '_' { '-' } else { lower_char(c) })
}

/// The algorithm that a configuration's spelling names.
pub open spec fn congestion_named(s: Seq<char>) -> Option<CongestionControl> {
    if spelled(s) == "cubic"@ {
        Some(CongestionControl::Cubic)
    } else if spelled(s) == "new-reno"@ || spelled(s) == "newreno"@ {
        Some(CongestionControl::NewReno)
    } else if spelled(s) == "bbr"@ {
        Some(CongestionControl::Bbr)
    } else {
        None
    }
}

impl CongestionControl {
    /// Parse the spellings used by TUIC and Hysteria 2 configurations.
    pub fn parse_str(s: &str) -> (r: Option<Self>)
        ensures
            r == congestion_named(s@),
    {
        let chars = chars_of(s);
        let mut t: Vec<char> = Vec::new();
        let mut i: usize = 0;
        while i < chars.len()
            invariant
                i <= chars@.len(),
                chars@ == s@,
                t@ == spelled(s@).take(i as int),
            decreases chars@.len() - i,
        {
            let c: char = chars[i];
            t.push(if c == '_' { '-' } else { to_lower_char(c) });
            proof {
                assert(t@ =~= spelled(s@).take(i + 1));
            }
            i = i + 1;
        }
        proof {
            assert(spelled(s@).take(i as int) =~= spelled(s@));
        }
        if same_chars(&t, &chars_of("cubic")) {
            Some(CongestionControl::Cubic)
        } else if same_chars(&t, &chars_of("new-reno")) || same_chars(&t, &chars_of("newreno")) {
            Some(CongestionControl::NewReno)
        } else if same_chars(&t, &chars_of("bbr")) {
            Some(CongestionControl::Bbr)
        } else {
            None
        }
    }
}

/// Configuration for a QUIC v1 client connection. Times are in nanoseconds.
#[derive(Debug, Clone)]
pub struct ClientConfig {
    /// Remote address.
    pub server_addr: SocketAddr,
    /// Host name for certificate verification and the `server_name` extension.
    pub server_name: String,
    /// ALPN protocols to offer.
    pub alpn: Vec<String>,
    /// Skip certificate chain and host name verification (discouraged).
    pub skip_cert_verify: bool,
    /// Local bind address; an ephemeral one where it is absent.
    pub local_addr: Option<SocketAddr>,
    /// The connection closes after this long without a received packet.
    pub idle_timeout: u64,
    /// Keep-alive ping interval.
    pub keep_alive_interval: Option<u64>,
    /// Handshake timeout.
    pub handshake_timeout: u64,
    /// Limit on bidirectional streams that the peer may open.
    pub max_concurrent_bidi_streams: u64,
    /// Limit on unidirectional streams that the peer may open.
    pub max_concurrent_uni_streams: u64,
    /// Total receive window advertised at first.
    pub initial_max_data: u64,
    /// Receive window of each stream advertised at first.
    pub initial_max_stream_data: u64,
    /// Largest UDP payload accepted.
    pub max_udp_payload_size: u64,
    /// Congestion-control selection.
    pub congestion_control: CongestionControl,
    /// Obfuscation of every datagram, where it is set.
    pub obfs: Option<Arc<Salamander>>,
}

impl ClientConfig {
    /// Sensible defaults for a proxy outbound.
    pub fn new(server_addr: SocketAddr, server_name: String) -> (r: Self)
        ensures
            r.server_addr == server_addr,
            r.server_name@ == server_name@,
            strings_view(r.alpn@) == seq!["h3"@],
            !r.skip_cert_verify,
            r.local_addr is None,
            r.idle_timeout == 30_000_000_000,
            r.keep_alive_interval is None,
            r.handshake_timeout == 15_000_000_000,
            r.max_concurrent_bidi_streams == 64,
            r.max_concurrent_uni_streams == 64,
            r.initial_max_data == 16 * 1024 * 1024,
            r.initial_max_stream_data == 1024 * 1024,
            r.max_udp_payload_size == 1200,
            r.congestion_control == CongestionControl::Cubic,
            r.obfs is None,
    {
        let mut alpn: Vec<String> = Vec::new();
        alpn.push(owned("h3"));
        proof {
            assert(strings_view(alpn@) =~= seq!["h3"@]);
        }
        Self {
            server_addr,
            server_name,
            alpn,
            skip_cert_verify: false,
            local_addr: None,
            idle_timeout: 30_000_000_000,
            keep_alive_interval: None,
            handshake_timeout: 15_000_000_000,
            max_concurrent_bidi_streams: 64,
            max_concurrent_uni_streams: 64,
            initial_max_data: 16 * 1024 * 1024,
            initial_max_stream_data: 1024 * 1024,
            max_udp_payload_size: 1200,
            congestion_control: CongestionControl::Cubic,
            obfs: None,
        }
    }
}

} // verus!
