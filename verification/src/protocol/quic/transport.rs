//! The QUIC v1 client connection as a state machine (RFC 9000, RFC 9002): datagrams and
//! times go in, datagrams come out.
//!
//! Whoever drives it hands received datagrams to [`ConnState::process_inbound`], calls
//! [`ConnState::on_timer`] when nothing arrives, and sends what
//! [`ConnState::build_outbound`] gives. Times are in nanoseconds of one clock.

use super::ack::{ack_intervals, count_named, count_of, intervals, newest, with_number};
use super::config::ClientConfig;
use super::error::{protocol, QuicError, QuicFault, Result};
use super::frame::{
    all_encodable, decode_frame, encode_frames, frame_bytes, frame_of, frames_view, payload_of, Frame,
    FrameView, Outgoing, OutgoingView,
};
use super::obfs::{salamander_unwrapped, Salamander};
use super::params::{
    client_params, lemma_varint_round_trip, varint, varint_at, varint_bytes, ParamsView,
    TransportParameters,
};
use super::protect::{
    decode_varint, encode_long, encode_short, header_opened, header_protected, long_header, open,
    packet_opened, packet_sealed, parse_packet, parsed_of, plain_first_byte, protect_header, seal, short_header,
    unprotect_header, PacketKey, PacketKeyView, Parsed, ParsedView,
};
use super::recovery::{capped, max_int, min_int, minus, Recovery};
use super::space::{flight, sorted, PnSpace, SentPacket, SentView, Space, SpaceView};
use super::streams::{lemma_credit_used_once, OutcomeView, RecvOutcome, StreamState, StreamView};
use super::tls13::{
    draw_pair, opened, opt_bytes, seed_from, seeded_pair, HandshakeView, Tls13Client,
};
use crate::crypto::{fill_random, gcm_open, gcm_opened};
use crate::text::{lossy, lossy_text, owned, strings_view};
use crate::wire::{be_value, copy_range, ct_eq, extend, lists_view, matches_at, repeat};
use crate::x509::root_certs;
use courierust::courierust_tls::x509::RootStore;
use std::collections::VecDeque;
use std::sync::Arc;
use vstd::prelude::*;
use vstd::slice::*;
use vstd::string::*;

verus! {

/// QUIC version 1.
pub const QUIC_VERSION: u32 = 1;

/// Largest datagram that is sent.
pub const MAX_UDP_PAYLOAD: u64 = 1_200;

/// Room kept free beside a DATAGRAM frame, so that an accepted datagram fits its packet.
pub const DATAGRAM_OVERHEAD: u64 = 48;

/// Room kept free beside other frames.
pub const PACKET_OVERHEAD: u64 = 50;

/// The longest header of a STREAM frame in a packet: type, identifier, offset and length.
pub const STREAM_HEADER: u64 = 19;

/// Type and length of a CRYPTO frame, and a PING behind it.
pub const CRYPTO_HEADER: u64 = 4;

/// No STREAM frame is begun with less room for its data.
pub const MIN_STREAM_DATA: u64 = 16;

/// The longest frame that raises a limit.
pub const CONTROL_LEN: u64 = 17;

/// Frames in a packet take this many bytes at least: header protection samples what stands
/// four bytes behind the beginning of the packet number.
pub const MIN_PAYLOAD: usize = 2;

/// Datagrams built in one go.
pub const MAX_BATCH: usize = 32;

/// Packet numbers this far below the largest one are too old.
pub const MAX_PN_AGE: u64 = 1_000_000;

/// Length of a packet number that is sent.
pub const PN_LEN: usize = 2;

/// Length of the tag behind protected frames.
pub const TAG_LEN: u64 = 16;

/// Key of the Retry integrity tag (RFC 9001 section 5.8; public by design).
pub const RETRY_KEY: [u8; 16] = [
    0xbe, 0x0c, 0x69, 0x0b, 0x9f, 0x66, 0x57, 0x5a, 0x1d, 0x76, 0x6b, 0x54, 0xe3, 0x68, 0xc8, 0x4e,
];

/// Nonce of the Retry integrity tag.
pub const RETRY_NONCE: [u8; 12] = [
    0x46, 0x15, 0x99, 0xd3, 0x5d, 0x63, 0x2b, 0xf2, 0x23, 0x98, 0x25, 0x2b,
];

/// Stream and data limits of both sides.
#[derive(Debug, Clone, Copy)]
pub struct Limits {
    /// Identifier of the next bidirectional stream.
    pub next_bidi: u64,
    /// Identifier of the next unidirectional stream.
    pub next_uni: u64,
    /// Bidirectional streams that the peer allows.
    pub peer_bidi_limit: u64,
    /// Unidirectional streams that the peer allows.
    pub peer_uni_limit: u64,
    /// Bytes that the peer allows on all streams together.
    pub peer_max_data: u64,
    /// Bytes that the peer allows on a new bidirectional stream.
    pub peer_max_stream_data_bidi: u64,
    /// Bytes that the peer allows on a new unidirectional stream.
    pub peer_max_stream_data_uni: u64,
    /// Bytes sent on all streams, none counted twice.
    pub total_sent: u64,
    /// Window of a bidirectional stream of this side.
    pub my_max_stream_data_bidi_local: u64,
    /// Window of a bidirectional stream of the peer.
    pub my_max_stream_data_bidi_remote: u64,
    /// Window of a unidirectional stream.
    pub my_max_stream_data_uni: u64,
    /// Bytes that the peer may send on all streams together.
    pub max_data_advertised: u64,
    /// Bytes received on all streams.
    pub total_recv: u64,
}

/// Timeouts, and the times that they count from.
#[derive(Debug, Clone, Copy)]
pub struct Timers {
    pub handshake_timeout: u64,
    pub idle_timeout: u64,
    pub keep_alive_interval: Option<u64>,
    /// When the last datagram arrived.
    pub last_recv: u64,
    /// When the next keep-alive is due.
    pub keep_alive_next: u64,
}

/// The state of a connection.
pub struct ConnState {
    tls: Tls13Client,
    scid: Vec<u8>,
    dcid: Vec<u8>,
    retry_token: Vec<u8>,
    spaces: Vec<Space>,
    streams: Vec<(u64, StreamState)>,
    limits: Limits,
    pending_max_data: Vec<u64>,
    pending_max_stream_data: Vec<(u64, u64)>,
    datagram_tx: VecDeque<Vec<u8>>,
    datagram_rx: VecDeque<Vec<u8>>,
    handshake_complete: bool,
    handshake_confirmed: bool,
    ping_pending: bool,
    closed: Option<QuicError>,
    timers: Timers,
    recovery: Recovery,
}

/// Spaces as mathematical values.
pub open spec fn spaces_view(v: Seq<Space>) -> Seq<SpaceView> {
    Seq::new(v.len(), |i: int| v[i]@)
}

/// Streams as mathematical values.
pub open spec fn streams_view(v: Seq<(u64, StreamState)>) -> Seq<(u64, StreamView)> {
    Seq::new(v.len(), |i: int| (v[i].0, v[i].1@))
}

pub open spec fn opt_fault(e: Option<QuicError>) -> Option<QuicFault> {
    match e {
        Some(e) => Some(e@),
        None => None,
    }
}

/// The state of a connection as a mathematical value.
#[verifier::ext_equal]
pub struct ConnView {
    pub tls: HandshakeView,
    /// Source connection identifier.
    pub scid: Seq<u8>,
    /// Destination connection identifier.
    pub dcid: Seq<u8>,
    /// Token of the last Retry.
    pub retry_token: Seq<u8>,
    /// The Initial, the Handshake and the application space.
    pub spaces: Seq<SpaceView>,
    /// Streams with their identifiers.
    pub streams: Seq<(u64, StreamView)>,
    pub limits: Limits,
    /// MAX_DATA limits to send.
    pub pending_max_data: Seq<u64>,
    /// MAX_STREAM_DATA limits to send.
    pub pending_max_stream_data: Seq<(u64, u64)>,
    /// Datagrams to send.
    pub datagram_tx: Seq<Seq<u8>>,
    /// Datagrams to read.
    pub datagram_rx: Seq<Seq<u8>>,
    pub handshake_complete: bool,
    pub handshake_confirmed: bool,
    /// Whether a keep-alive is due.
    pub ping_pending: bool,
    /// Why the connection is closed, if it is.
    pub closed: Option<QuicFault>,
    pub timers: Timers,
    pub recovery: Recovery,
}

impl View for ConnState {
    type V = ConnView;

    closed spec fn view(&self) -> ConnView {
        ConnView {
            tls: self.tls@,
            scid: self.scid@,
            dcid: self.dcid@,
            retry_token: self.retry_token@,
            spaces: spaces_view(self.spaces@),
            streams: streams_view(self.streams@),
            limits: self.limits,
            pending_max_data: self.pending_max_data@,
            pending_max_stream_data: self.pending_max_stream_data@,
            datagram_tx: lists_view(self.datagram_tx@),
            datagram_rx: lists_view(self.datagram_rx@),
            handshake_complete: self.handshake_complete,
            handshake_confirmed: self.handshake_confirmed,
            ping_pending: self.ping_pending,
            closed: opt_fault(self.closed),
            timers: self.timers,
            recovery: self.recovery,
        }
    }
}

/// The first stream from the `i`th on with an identifier.
pub open spec fn stream_from(streams: Seq<(u64, StreamView)>, id: u64, i: int) -> int
    decreases streams.len() - i,
{
    if 0 <= i < streams.len() && streams[i].0 != id {
        stream_from(streams, id, i + 1)
    } else {
        i
    }
}

/// What comes of a step that may fail.
pub type Outcome = core::result::Result<(), QuicFault>;

/// Limits raised to what the peer's transport parameters give.
pub open spec fn raised_limits(l: Limits, tp: ParamsView) -> Limits {
    Limits {
        peer_bidi_limit: max_int(
            l.peer_bidi_limit as int,
            tp.initial_max_streams_bidi as int,
        ) as u64,
        peer_uni_limit: max_int(l.peer_uni_limit as int, tp.initial_max_streams_uni as int) as u64,
        peer_max_data: max_int(l.peer_max_data as int, tp.initial_max_data as int) as u64,
        peer_max_stream_data_bidi: max_int(
            l.peer_max_stream_data_bidi as int,
            tp.initial_max_stream_data_bidi_remote as int,
        ) as u64,
        peer_max_stream_data_uni: max_int(
            l.peer_max_stream_data_uni as int,
            tp.initial_max_stream_data_uni as int,
        ) as u64,
        ..l
    }
}

fn larger(a: u64, b: u64) -> (r: u64)
    ensures
        r == max_int(a as int, b as int),
{
    if a >= b {
        a
    } else {
        b
    }
}

/// The frames of the streams from the `i`th on that fit in `budget` bytes with their
/// headers: the streams, the limits and the frames behind them.
pub open spec fn stream_frames(
    streams: Seq<(u64, StreamView)>,
    limits: Limits,
    frames: Seq<OutgoingView>,
    i: int,
    budget: u64,
) -> (Seq<(u64, StreamView)>, Limits, Seq<OutgoingView>)
    decreases streams.len() - i,
{
    if i < 0 || i >= streams.len() || budget < STREAM_HEADER + MIN_STREAM_DATA {
        (streams, limits, frames)
    } else if !streams[i].1.has_send_data() {
        stream_frames(streams, limits, frames, i + 1, budget)
    } else {
        let id = streams[i].0;
        let send_limit = streams[i].1.peer_limit;
        let credit = minus(limits.peer_max_data, limits.total_sent);
        let room = (budget - STREAM_HEADER) as u64;
        let (next, frame, used) = streams[i].1.next_frame(id, send_limit, credit, room);
        match frame {
            None => stream_frames(streams, limits, frames, i + 1, budget),
            Some(f) => stream_frames(
                streams.update(i, (id, next)),
                Limits { total_sent: capped(limits.total_sent + used), ..limits },
                frames.push(f),
                i + 1,
                (room - streams[i].1.frame_len(send_limit, credit, room)) as u64,
            ),
        }
    }
}

/// Whether a round brought the end closer: a datagram less waits, or a packet more is
/// built and the batch is not full.
pub open spec fn shrinks(waiting: nat, waited: nat, built: nat, had: nat) -> bool {
    waiting < waited || (waiting == waited && had < built <= MAX_BATCH)
}

/// Bytes for stream frames in a packet with `n` control frames.
pub open spec fn stream_room(max_datagram: u64, n: nat) -> u64 {
    max_int(minus(max_datagram, PACKET_OVERHEAD) - n * CONTROL_LEN, 0) as u64
}

/// MAX_DATA frames for limits.
pub open spec fn max_data_frames(limits: Seq<u64>) -> Seq<OutgoingView> {
    limits.map_values(|max: u64| OutgoingView::MaxData(max))
}

/// MAX_STREAM_DATA frames for limits.
pub open spec fn max_stream_data_frames(limits: Seq<(u64, u64)>) -> Seq<OutgoingView> {
    limits.map_values(
        |l: (u64, u64)| OutgoingView::MaxStreamData { stream_id: l.0, max: l.1 },
    )
}

/// Bytes of the first CRYPTO frame from the `i`th frame on.
pub open spec fn crypto_len(frames: Seq<OutgoingView>, i: int) -> nat
    decreases frames.len() - i,
{
    if i < 0 || i >= frames.len() {
        0
    } else {
        match frames[i] {
            OutgoingView::Crypto { offset, data } => data.len(),
            _ => crypto_len(frames, i + 1),
        }
    }
}

/// Where the packet number of a long header begins, and how many bytes the header announces
/// from there on.
pub open spec fn long_fields(data: Seq<u8>) -> Option<(int, u64)> {
    if data.len() < 7 || data.len() < 7 + data[5] {
        None
    } else {
        let scid = 6 + data[5] as int;
        let behind = scid + 1 + data[scid];
        if data.len() < behind {
            None
        } else if (data[0] / 16) % 4 == 0 {
            match varint_at(data.skip(behind), 0) {
                None => None,
                Some((token_len, n)) => if data.len() < behind + n + token_len {
                    None
                } else {
                    match varint_at(data.skip(behind + n + token_len), 0) {
                        None => None,
                        Some((len, m)) => Some((behind + n + token_len + m, len)),
                    }
                },
            }
        } else {
            match varint_at(data.skip(behind), 0) {
                None => None,
                Some((len, m)) => Some((behind + m, len)),
            }
        }
    }
}

/// Where the packet number of a long header begins.
pub open spec fn long_pn_at(data: Seq<u8>) -> Option<int> {
    match long_fields(data) {
        Some((at, len)) => Some(at),
        None => None,
    }
}

/// Bytes of the first packet of a datagram. Only a long header says where its packet ends;
/// any other packet takes the rest.
pub open spec fn packet_len(data: Seq<u8>) -> int {
    if data.len() >= 5 && data[0] >= 0x80 && be_value(data.subrange(1, 5)) == QUIC_VERSION && (
    data[0] / 16) % 4 != 3 {
        match long_fields(data) {
            Some((at, len)) => min_int(at + len, data.len() as int),
            None => data.len() as int,
        }
    } else {
        data.len() as int
    }
}

/// The parts of a Retry packet.
#[verifier::ext_equal]
pub struct RetryView {
    pub dcid: Seq<u8>,
    pub scid: Seq<u8>,
    pub token: Seq<u8>,
    pub tag: Seq<u8>,
}

/// The parts of a Retry packet, or why it is malformed.
pub open spec fn retry_of(data: Seq<u8>) -> core::result::Result<RetryView, QuicFault> {
    let truncated = QuicFault::Protocol("truncated Retry"@);
    if data.len() < 7 || data.len() < 7 + data[5] {
        Err(truncated)
    } else {
        let at = 6 + data[5] as int;
        let behind = at + 1 + data[at];
        if data.len() < behind + 2 {
            Err(truncated)
        } else {
            match varint_at(data.skip(behind), 0) {
                None => Err(QuicFault::Protocol("UnexpectedEof"@)),
                Some((len, n)) => if data.len() < behind + n + len + 16 {
                    Err(truncated)
                } else {
                    Ok(
                        RetryView {
                            dcid: data.subrange(6, at),
                            scid: data.subrange(at + 1, behind),
                            token: data.subrange(behind + n, behind + n + len),
                            tag: data.subrange(behind + n + len, behind + n + len + 16),
                        },
                    )
                },
            }
        }
    }
}

/// What the tag of a Retry packet covers.
pub open spec fn retry_pseudo(r: RetryView) -> Seq<u8> {
    seq![r.dcid.len() as u8] + r.dcid + seq![0x40u8, 0, 0, 0, 1] + seq![r.scid.len() as u8] + r.scid
        + varint_bytes(r.token.len() as u64) + r.token
}

impl ConnView {
    /// Every part is well-formed, and no two streams have the same identifier.
    pub open spec fn wf(self) -> bool {
        &&& self.tls.wf()
        &&& self.spaces.len() == 3
        &&& forall|i: int| 0 <= i < 3 ==> (#[trigger] self.spaces[i]).wf()
        &&& forall|i: int| 0 <= i < self.streams.len() ==> (#[trigger] self.streams[i]).1.wf()
        &&& forall|i: int, j: int|
            0 <= i < j < self.streams.len() ==> (#[trigger] self.streams[i]).0 != (
            #[trigger] self.streams[j]).0
        &&& self.recovery.wf()
        &&& self.scid.len() <= 20
    }

    pub open spec fn with_space(self, i: int, s: SpaceView) -> ConnView {
        ConnView { spaces: self.spaces.update(i, s), ..self }
    }

    pub open spec fn with_stream(self, i: int, s: StreamView) -> ConnView {
        ConnView { streams: self.streams.update(i, (self.streams[i].0, s)), ..self }
    }

    /// The place of a stream, or the number of streams where there is none.
    pub open spec fn stream(self, id: u64) -> int {
        stream_from(self.streams, id, 0)
    }

    // -- Inbound ------------------------------------------------------------

    /// With the keys of the handshake in the spaces. Those of the Handshake space do not come
    /// back once the handshake is confirmed.
    pub open spec fn with_keys(self) -> ConnView {
        let h = self.spaces[1];
        let a = self.spaces[2];
        let hs = SpaceView {
            write_key: if h.write_key is None && !self.handshake_confirmed {
                self.tls.hs_write
            } else {
                h.write_key
            },
            key: if h.key is None && !self.handshake_confirmed {
                self.tls.hs_read
            } else {
                h.key
            },
            ..h
        };
        let app = if self.tls.complete() {
            SpaceView {
                write_key: if self.tls.app_write is Some {
                    self.tls.app_write
                } else {
                    a.write_key
                },
                key: if self.tls.app_read is Some {
                    self.tls.app_read
                } else {
                    a.key
                },
                ..a
            }
        } else {
            a
        };
        ConnView { spaces: self.spaces.update(1, hs).update(2, app), ..self }
    }

    /// With the limits that the peer's transport parameters give, once the handshake is
    /// over.
    pub open spec fn with_peer_limits(self) -> ConnView {
        match self.tls.peer_tp {
            Some(tp) if self.tls.complete() => ConnView {
                limits: raised_limits(self.limits, tp),
                ..self
            },
            _ => self,
        }
    }

    /// After CRYPTO data in a space.
    pub open spec fn on_crypto(self, space: PnSpace, offset: u64, data: Seq<u8>) -> (
        ConnView,
        Outcome,
    ) {
        let i = space.place();
        match self.spaces[i].with_crypto(offset, data) {
            Err(f) => (self, Err(f)),
            Ok(sp) => {
                let (tls, r) = self.tls.consumed(sp.crypto_recv, 0);
                match r {
                    Err(f) => (ConnView { tls, ..self.with_space(i, sp) }, Err(f)),
                    Ok(n) => {
                        let read = self.with_space(i, sp.crypto_read(n));
                        let queued = read.with_space(1, read.spaces[1].queued(tls.pending));
                        let keyed = (ConnView {
                            tls: HandshakeView { pending: Seq::empty(), ..tls },
                            ..queued
                        }).with_keys().with_peer_limits();
                        (
                            ConnView {
                                handshake_complete: self.handshake_complete || tls.complete(),
                                ..keyed
                            },
                            Ok(()),
                        )
                    },
                }
            },
        }
    }

    /// What the peer may send on a new stream of its own.
    pub open spec fn recv_window(self, id: u64) -> u64 {
        if id % 2 == 0 {
            self.limits.my_max_stream_data_bidi_local
        } else if (id / 2) % 2 != 0 {
            self.limits.my_max_stream_data_uni
        } else {
            self.limits.my_max_stream_data_bidi_remote
        }
    }

    /// With a stream of this identifier.
    pub open spec fn with_new_stream(self, id: u64) -> ConnView {
        if self.stream(id) < self.streams.len() {
            self
        } else {
            ConnView {
                streams: self.streams.push((id, StreamView::opened(0, self.recv_window(id)))),
                ..self
            }
        }
    }

    /// With the windows of a stream and of the connection raised where more than half of
    /// them is used.
    pub open spec fn credited(self, i: int) -> ConnView {
        let s = self.streams[i].1;
        let raised = match s.next_limit() {
            Some(max) => ConnView {
                pending_max_stream_data: self.pending_max_stream_data.push(
                    (self.streams[i].0, max),
                ),
                ..self.with_stream(i, s.credited())
            },
            None => self,
        };
        let advertised = self.limits.max_data_advertised;
        if self.limits.total_recv + advertised / 2 > advertised {
            let max = capped(advertised + advertised / 2);
            ConnView {
                limits: Limits { max_data_advertised: max, ..raised.limits },
                pending_max_data: raised.pending_max_data.push(max),
                ..raised
            }
        } else {
            raised
        }
    }

    /// After a STREAM frame.
    pub open spec fn on_stream(self, id: u64, offset: u64, data: Seq<u8>, fin: bool) -> (
        ConnView,
        Outcome,
    ) {
        let c = self.with_new_stream(id);
        let i = c.stream(id);
        match c.streams[i].1.received(offset, data, fin) {
            Err(f) => (c, Err(f)),
            Ok(s) => (
                (ConnView {
                    limits: Limits {
                        total_recv: capped(c.limits.total_recv + data.len()),
                        ..c.limits
                    },
                    ..c.with_stream(i, s)
                }).credited(i),
                Ok(()),
            ),
        }
    }

    /// After a sent frame of a space is acknowledged.
    pub open spec fn on_acked_frame(self, space: PnSpace, f: OutgoingView) -> ConnView {
        match f {
            OutgoingView::Stream { stream_id, offset, data, fin } => {
                let i = self.stream(stream_id);
                if i < self.streams.len() {
                    self.with_stream(i, self.streams[i].1.acked(offset, data.len(), fin))
                } else {
                    self
                }
            },
            OutgoingView::Crypto { offset, data } => self.with_space(
                space.place(),
                self.spaces[space.place()].crypto_acknowledged(offset, data.len()),
            ),
            _ => self,
        }
    }

    /// After a sent frame of a space is lost: what it carried is sent again, a limit as it
    /// now stands.
    pub open spec fn on_lost_frame(self, space: PnSpace, f: OutgoingView, now: u64) -> ConnView {
        let c = match f {
            OutgoingView::Stream { stream_id, offset, data, fin } => {
                let i = self.stream(stream_id);
                if i < self.streams.len() {
                    self.with_stream(i, self.streams[i].1.lost(offset, fin))
                } else {
                    self
                }
            },
            OutgoingView::Crypto { offset, data } => self.with_space(
                space.place(),
                self.spaces[space.place()].crypto_lost(offset),
            ),
            OutgoingView::MaxData(_) => ConnView {
                pending_max_data: self.pending_max_data.push(self.limits.max_data_advertised),
                ..self
            },
            OutgoingView::MaxStreamData { stream_id, max } => {
                let i = self.stream(stream_id);
                if i < self.streams.len() {
                    ConnView {
                        pending_max_stream_data: self.pending_max_stream_data.push(
                            (stream_id, self.streams[i].1.peer_send_limit),
                        ),
                        ..self
                    }
                } else {
                    self
                }
            },
            _ => self,
        };
        ConnView { recovery: c.recovery.lost(now), ..c }
    }

    /// After the first `n` of some frames of a space are acknowledged.
    pub open spec fn after_acked(self, space: PnSpace, frames: Seq<OutgoingView>, n: int) -> ConnView
        decreases n,
    {
        if n <= 0 {
            self
        } else {
            self.after_acked(space, frames, n - 1).on_acked_frame(space, frames[n - 1])
        }
    }

    /// After the first `n` of some frames of a space are lost.
    pub open spec fn after_lost(self, space: PnSpace, frames: Seq<OutgoingView>, n: int, now: u64) -> ConnView
        decreases n,
    {
        if n <= 0 {
            self
        } else {
            self.after_lost(space, frames, n - 1, now).on_lost_frame(space, frames[n - 1], now)
        }
    }

    /// After an ACK frame.
    pub open spec fn on_ack(
        self,
        space: PnSpace,
        largest: u64,
        delay: u64,
        ranges: Seq<(u64, u64)>,
        now: u64,
    ) -> ConnView {
        let i = space.place();
        let named = intervals(largest, ranges);
        let s = sorted(self.spaces[i].sent, named, self.recovery, now);
        let taken = ConnView {
            recovery: Recovery { bytes_in_flight: s.in_flight, ..self.recovery },
            ..self.with_space(i, SpaceView { sent: s.kept, ..self.spaces[i] })
        };
        let c = taken.after_acked(space, s.acked, s.acked.len() as int).after_lost(
            space,
            s.lost,
            s.lost.len() as int,
            now,
        );
        let grown = c.recovery.acknowledged(capped(count_of(named)));
        let timed = match s.newest {
            Some(sent_at) => grown.sampled(sent_at, delay, now),
            None => grown,
        };
        ConnView { recovery: Recovery { pto_count: 0, pto_due: None, ..timed }, ..c }
    }

    /// After one frame of a packet.
    pub open spec fn on_frame(self, space: PnSpace, frame: FrameView, now: u64) -> (
        ConnView,
        Outcome,
    ) {
        match frame {
            FrameView::Ack { largest, delay, ranges } => (
                self.on_ack(space, largest, delay, ranges, now),
                Ok(()),
            ),
            FrameView::Crypto { offset, data } => self.on_crypto(space, offset, data),
            FrameView::Stream { stream_id, offset, data, fin } => self.on_stream(
                stream_id,
                match offset {
                    Some(o) => o,
                    None => 0,
                },
                data,
                fin,
            ),
            FrameView::MaxData(max) => (
                ConnView {
                    limits: Limits {
                        peer_max_data: max_int(
                            self.limits.peer_max_data as int,
                            max as int,
                        ) as u64,
                        ..self.limits
                    },
                    ..self
                },
                Ok(()),
            ),
            FrameView::MaxStreamData { stream_id, max } => {
                let i = self.stream(stream_id);
                (
                    if i < self.streams.len() {
                        let s = self.streams[i].1;
                        self.with_stream(
                            i,
                            StreamView {
                                peer_limit: max_int(s.peer_limit as int, max as int) as u64,
                                ..s
                            },
                        )
                    } else {
                        self
                    },
                    Ok(()),
                )
            },
            FrameView::MaxStreams { unidirectional, max } => {
                let l = self.limits;
                (
                    ConnView {
                        limits: if unidirectional {
                            Limits {
                                peer_uni_limit: max_int(
                                    l.peer_uni_limit as int,
                                    max as int,
                                ) as u64,
                                ..l
                            }
                        } else {
                            Limits {
                                peer_bidi_limit: max_int(
                                    l.peer_bidi_limit as int,
                                    max as int,
                                ) as u64,
                                ..l
                            }
                        },
                        ..self
                    },
                    Ok(()),
                )
            },
            FrameView::ResetStream { stream_id, error_code } => {
                let i = self.stream(stream_id);
                (
                    if i < self.streams.len() {
                        self.with_stream(
                            i,
                            StreamView { reset_recv: Some(error_code), ..self.streams[i].1 },
                        )
                    } else {
                        self
                    },
                    Ok(()),
                )
            },
            FrameView::ConnectionClose { error_code, reason } => (
                ConnView {
                    closed: Some(QuicFault::ClosedByPeer(error_code, lossy_text(reason))),
                    ..self
                },
                Ok(()),
            ),
            FrameView::HandshakeDone => (
                ConnView {
                    handshake_confirmed: true,
                    spaces: self.spaces.update(0, self.spaces[0].discarded()).update(
                        1,
                        self.spaces[1].discarded(),
                    ),
                    recovery: Recovery {
                        bytes_in_flight: minus(
                            minus(
                                self.recovery.bytes_in_flight,
                                capped(flight(self.spaces[0].sent) as int),
                            ),
                            capped(flight(self.spaces[1].sent) as int),
                        ),
                        ..self.recovery
                    },
                    ..self
                },
                Ok(()),
            ),
            FrameView::Datagram(data) => (
                ConnView { datagram_rx: self.datagram_rx.push(data), ..self },
                Ok(()),
            ),
            FrameView::Other => (self, Ok(())),
        }
    }

    /// After the frames of a payload from `pos` on.
    pub open spec fn on_frames(self, space: PnSpace, plain: Seq<u8>, pos: int, now: u64) -> (
        ConnView,
        Outcome,
    )
        decreases plain.len() - pos,
    {
        if pos < 0 || pos >= plain.len() {
            (self, Ok(()))
        } else {
            match frame_of(plain.skip(pos)) {
                Err(m) => (self, Err(QuicFault::Protocol(m))),
                Ok((frame, n)) => {
                    let (next, r) = self.on_frame(space, frame, now);
                    match r {
                        Err(f) => (next, Err(f)),
                        Ok(_) => if n < 1 || pos + n > plain.len() {
                            (next, Ok(()))
                        } else {
                            next.on_frames(space, plain, pos + n, now)
                        },
                    }
                },
            }
        }
    }

    /// With a packet number remembered for acknowledgement.
    pub open spec fn with_received(self, space: PnSpace, pn: u64) -> ConnView {
        let s = self.spaces[space.place()];
        self.with_space(
            space.place(),
            SpaceView {
                largest_recv_pn: max_int(s.largest_recv_pn as int, pn as int) as u64,
                ack_queue: newest(with_number(s.ack_queue, pn)),
                ack_pending: true,
                ..s
            },
        )
    }

    /// Whether a packet number was seen, or is too old to tell.
    pub open spec fn is_stale(self, space: PnSpace, pn: u64) -> bool {
        let s = self.spaces[space.place()];
        (pn <= s.largest_recv_pn && s.ack_queue.contains(pn)) || pn + MAX_PN_AGE
            <= s.largest_recv_pn
    }

    /// The header of a packet whose packet number begins at `pn_offset`, and its payload
    /// where the tag is right. None for a packet that is too short, without a key, or
    /// seen before.
    pub open spec fn unsealed(self, data: Seq<u8>, space: PnSpace, pn_offset: int, long: bool) -> core::result::Result<
        Option<(ParsedView, Option<Seq<u8>>)>,
        QuicFault,
    > {
        let s = self.spaces[space.place()];
        if data.len() < pn_offset + 21 || s.key is None {
            Ok(None)
        } else {
            let key = s.key->0;
            match header_opened(key, data, pn_offset as nat, long) {
                Err(m) => Err(QuicFault::Protocol(m)),
                Ok((packet, n)) => match parsed_of(packet, s.largest_recv_pn, self.scid.len()) {
                    Err(m) => Err(QuicFault::Protocol(m)),
                    Ok(p) => if self.is_stale(space, p.pn) {
                        Ok(None)
                    } else {
                        let end = pn_offset + p.pn_len;
                        Ok(
                            Some(
                                (
                                    p,
                                    packet_opened(
                                        key,
                                        p.pn,
                                        packet.take(end),
                                        packet.skip(end),
                                    ),
                                ),
                            ),
                        )
                    },
                },
            }
        }
    }

    /// After the payload of a packet.
    pub open spec fn on_payload(self, space: PnSpace, pn: u64, plain: Seq<u8>, now: u64) -> (
        ConnView,
        Outcome,
    ) {
        let (next, r) = self.on_frames(space, plain, 0, now);
        match r {
            Err(f) => (next, Err(f)),
            Ok(_) => if next.closed is Some {
                (next, Ok(()))
            } else {
                (next.with_received(space, pn), Ok(()))
            },
        }
    }

    /// With the peer's source connection identifier as destination, where a header gives
    /// one.
    pub open spec fn addressed(self, scid: Option<Seq<u8>>) -> ConnView {
        match scid {
            Some(id) => if id.len() > 0 {
                ConnView { dcid: id, ..self }
            } else {
                self
            },
            None => self,
        }
    }

    /// After a packet whose packet number begins at `pn_offset`.
    pub open spec fn on_packet(
        self,
        data: Seq<u8>,
        space: PnSpace,
        pn_offset: int,
        long: bool,
        now: u64,
    ) -> (ConnView, Outcome) {
        match self.unsealed(data, space, pn_offset, long) {
            Err(f) => (self, Err(f)),
            Ok(None) => (self, Ok(())),
            Ok(Some((p, None))) => (self.addressed(p.scid), Ok(())),
            Ok(Some((p, Some(plain)))) => self.addressed(p.scid).on_payload(
                space,
                p.pn,
                plain,
                now,
            ),
        }
    }

    /// The Initial space for a destination connection identifier, with the opening message
    /// to send.
    pub open spec fn initial_space(self, dcid: Seq<u8>) -> SpaceView {
        (SpaceView {
            key: Some(PacketKeyView::Initial(dcid, true)),
            write_key: Some(PacketKeyView::Initial(dcid, false)),
            ..SpaceView::unused()
        }).queued(self.tls.client_hello)
    }

    /// After a Retry packet. One for another connection or with a wrong tag is ignored.
    pub open spec fn on_retry(self, data: Seq<u8>) -> (ConnView, Outcome) {
        match retry_of(data) {
            Err(f) => (self, Err(f)),
            Ok(r) => if r.dcid != self.dcid || gcm_opened(
                RETRY_KEY@,
                RETRY_NONCE@,
                retry_pseudo(r),
                r.tag,
            ) is None {
                (self, Ok(()))
            } else if r.scid.len() < 1 || r.scid.len() > 20 {
                (
                    ConnView {
                        dcid: r.scid,
                        retry_token: r.token,
                        ..self.with_space(0, SpaceView::unused())
                    },
                    Err(
                        QuicFault::Protocol(
                            "Protocol: QUIC Initial DCID must contain 1-20 bytes"@,
                        ),
                    ),
                )
            } else {
                (
                    ConnView {
                        dcid: r.scid,
                        retry_token: r.token,
                        tls: self.tls.restarted(),
                        ..self.with_space(0, self.initial_space(r.scid))
                    },
                    Ok(()),
                )
            },
        }
    }

    /// After one packet of a datagram. What is not for this connection is dropped.
    pub open spec fn on_one(self, data: Seq<u8>, now: u64) -> (ConnView, Outcome) {
        if self.closed is Some || data.len() == 0 {
            (self, Ok(()))
        } else if data[0] >= 0x80 {
            let version = be_value(data.subrange(1, 5));
            let kind = (data[0] / 16) % 4;
            if data.len() < 5 {
                (self, Ok(()))
            } else if version == 0 {
                (
                    self,
                    Err(QuicFault::Protocol("server sent a version-negotiation packet"@)),
                )
            } else if version != QUIC_VERSION {
                (self, Ok(()))
            } else if kind == 3 {
                self.on_retry(data)
            } else if data.len() < 6 || data[5] != self.scid.len() || data.len() < 6
                + self.scid.len() || data.subrange(6, 6 + self.scid.len() as int) != self.scid
                || kind == 1 {
                (self, Ok(()))
            } else {
                match long_pn_at(data) {
                    None => (self, Err(QuicFault::Protocol("malformed long header"@))),
                    Some(at) => self.on_packet(
                        data,
                        if kind == 0 {
                            PnSpace::Initial
                        } else {
                            PnSpace::Handshake
                        },
                        at,
                        true,
                        now,
                    ),
                }
            }
        } else {
            let at = 1 + self.scid.len() as int;
            if data.len() <= at || data.subrange(1, at) != self.scid {
                (self, Ok(()))
            } else {
                self.on_packet(data, PnSpace::Application, at, false, now)
            }
        }
    }

    /// After a received datagram: its packets one after another, up to one that fails.
    pub open spec fn on_inbound(self, data: Seq<u8>, now: u64) -> (ConnView, Outcome)
        decreases data.len(),
    {
        let n = packet_len(data);
        if self.closed is Some || data.len() == 0 {
            (self, Ok(()))
        } else {
            match self.on_one(data.take(n), now) {
                (c, Err(f)) => (c, Err(f)),
                (c, Ok(_)) => if 0 < n < data.len() {
                    c.on_inbound(data.skip(n), now)
                } else {
                    (c, Ok(()))
                },
            }
        }
    }

    // -- Outbound -----------------------------------------------------------

    /// The header of the next packet of a space, its frames being `payload_len` bytes long.
    /// The length field of a long header counts the packet number and the tag too.
    pub open spec fn next_header(self, space: PnSpace, payload_len: nat) -> Option<Seq<u8>> {
        let pn = self.spaces[space.place()].next_pn;
        let length = capped(payload_len + PN_LEN + TAG_LEN);
        match space {
            PnSpace::Initial => long_header(
                true,
                self.dcid,
                self.scid,
                pn,
                PN_LEN as nat,
                self.retry_token,
                length,
            ),
            PnSpace::Handshake => long_header(
                false,
                self.dcid,
                self.scid,
                pn,
                PN_LEN as nat,
                Seq::empty(),
                length,
            ),
            PnSpace::Application => short_header(self.dcid, pn, PN_LEN as nat),
        }
    }

    /// The fewest bytes that the frames of the next packet of a space take: an Initial packet
    /// fills its datagram, any other one has what header protection samples.
    pub open spec fn least_payload(self, space: PnSpace) -> nat {
        match self.next_header(space, MAX_UDP_PAYLOAD as nat) {
            Some(header) if space == PnSpace::Initial => max_int(
                MAX_UDP_PAYLOAD - TAG_LEN - header.len(),
                MIN_PAYLOAD as int,
            ) as nat,
            _ => MIN_PAYLOAD as nat,
        }
    }

    /// The frames of the next packet of a space behind the padding that they need. A
    /// DATAGRAM takes all that follows it, so padding goes before.
    pub open spec fn padded(self, space: PnSpace, frames: Seq<OutgoingView>) -> Seq<u8> {
        let payload = payload_of(frames);
        let n = max_int(self.least_payload(space) - payload.len(), 0) as nat;
        Seq::new(n, |i: int| 0u8) + payload
    }

    /// One packet with the given frames, and the connection behind it. None where it
    /// cannot be built: it would be too large, or there is no key for it.
    pub open spec fn with_packet(
        self,
        space: PnSpace,
        frames: Seq<OutgoingView>,
        ack_eliciting: bool,
        max_datagram: u64,
        now: u64,
    ) -> (ConnView, Option<Seq<u8>>) {
        let i = space.place();
        let s = self.spaces[i];
        let payload = self.padded(space, frames);
        match self.next_header(space, payload.len()) {
            None => (self, None),
            Some(header) => {
                let at = header.len() - PN_LEN;
                let size = header.len() + payload.len() + TAG_LEN;
                if !all_encodable(frames) || s.next_pn == u64::MAX || s.write_key is None || size
                    > max_datagram {
                    (self, None)
                } else {
                    let key = s.write_key->0;
                    let datagram = header_protected(
                        key,
                        header + packet_sealed(key, s.next_pn, header, payload),
                        at as nat,
                        space != PnSpace::Application,
                    );
                    let sent = SpaceView {
                        next_pn: (s.next_pn + 1) as u64,
                        crypto_sent: if space == PnSpace::Application {
                            s.crypto_sent
                        } else {
                            min_int(
                                s.crypto_sent + crypto_len(frames, 0),
                                s.crypto_written as int,
                            ) as u64
                        },
                        sent: if ack_eliciting {
                            s.sent.push(
                                SentView {
                                    pn: s.next_pn,
                                    time: now,
                                    size: size as nat,
                                    ack_eliciting: true,
                                    in_flight: true,
                                    frames,
                                },
                            )
                        } else {
                            s.sent
                        },
                        ..s
                    };
                    (
                        ConnView {
                            recovery: if ack_eliciting {
                                self.recovery.sent(size as nat, now)
                            } else {
                                self.recovery
                            },
                            ..self.with_space(i, sent)
                        },
                        Some(datagram),
                    )
                }
            },
        }
    }

    /// Whether whoever holds the key can read a packet of a space: header protection comes
    /// off, and what opens is the frames that went in, behind their padding.
    pub open spec fn readable(self, space: PnSpace, frames: Seq<OutgoingView>, datagram: Seq<u8>) -> bool {
        let s = self.spaces[space.place()];
        let header = self.next_header(space, self.padded(space, frames).len())->0;
        let key = s.write_key->0;
        match header_opened(
            key,
            datagram,
            (header.len() - PN_LEN) as nat,
            space != PnSpace::Application,
        ) {
            Ok((packet, n)) => n == PN_LEN && packet_opened(
                key,
                s.next_pn,
                packet.take(header.len() as int),
                packet.skip(header.len() as int),
            ) == Some(self.padded(space, frames)),
            Err(m) => false,
        }
    }

    /// Flow-control and stream frames that fit in a packet, the connection behind them,
    /// and whether there is any.
    pub open spec fn collected(self, frames: Seq<OutgoingView>, max_datagram: u64) -> (
        ConnView,
        Seq<OutgoingView>,
        bool,
    ) {
        let control = frames + max_data_frames(self.pending_max_data) + max_stream_data_frames(
            self.pending_max_stream_data,
        );
        let (streams, limits, all) = stream_frames(
            self.streams,
            self.limits,
            control,
            0,
            stream_room(max_datagram, control.len()),
        );
        (
            ConnView {
                streams,
                limits,
                pending_max_data: Seq::empty(),
                pending_max_stream_data: Seq::empty(),
                ..self
            },
            all,
            all.len() > frames.len(),
        )
    }

    /// Bytes for CRYPTO data in the next packet of a space: less than usual where identifiers
    /// and token are long.
    pub open spec fn crypto_room(self, space: PnSpace, max_datagram: u64) -> u64 {
        let offset = self.spaces[space.place()].crypto_sent;
        match self.next_header(space, MAX_UDP_PAYLOAD as nat) {
            None => minus(max_datagram, PACKET_OVERHEAD),
            Some(header) => min_int(
                minus(max_datagram, PACKET_OVERHEAD) as int,
                max_int(
                    max_datagram - TAG_LEN - header.len() - CRYPTO_HEADER - varint_bytes(
                        offset,
                    ).len(),
                    0,
                ),
            ) as u64,
        }
    }

    /// The frames of the next packet of a space, the connection behind them, and whether
    /// the packet asks for an acknowledgement.
    pub open spec fn next_frames(self, space: PnSpace, max_datagram: u64) -> (
        ConnView,
        Seq<OutgoingView>,
        bool,
    ) {
        let s = self.spaces[space.place()];
        let crypto = if space != PnSpace::Application {
            s.next_crypto(self.crypto_room(space, max_datagram) as nat)
        } else {
            None
        };
        let first = match crypto {
            Some(f) => seq![f],
            None => Seq::empty(),
        };
        let (c, frames, streamed) = if space == PnSpace::Application {
            self.collected(first, max_datagram)
        } else {
            (self, first, false)
        };
        if c.ping_pending && space == c.ping_space() {
            (ConnView { ping_pending: false, ..c }, frames.push(OutgoingView::Ping), true)
        } else {
            (c, frames, crypto is Some || streamed)
        }
    }

    /// The space that a PING goes out in: the last one with a key.
    pub open spec fn ping_space(self) -> PnSpace {
        if self.spaces[2].write_key is Some {
            PnSpace::Application
        } else if self.spaces[1].write_key is Some {
            PnSpace::Handshake
        } else {
            PnSpace::Initial
        }
    }

    /// One round of a space's packets: a datagram or the next frames. The connection, the
    /// datagrams behind it, and whether another round follows.
    pub open spec fn round(
        self,
        space: PnSpace,
        max_datagram: u64,
        out: Seq<Seq<u8>>,
        now: u64,
    ) -> (ConnView, Seq<Seq<u8>>, bool) {
        if minus(self.recovery.cwnd, self.recovery.bytes_in_flight) < 40 {
            (self, out, false)
        } else if space == PnSpace::Application && self.datagram_tx.len() > 0
            && self.datagram_tx[0].len() <= minus(max_datagram, DATAGRAM_OVERHEAD) {
            let c = ConnView { datagram_tx: self.datagram_tx.skip(1), ..self };
            let (next, datagram) = c.with_packet(
                space,
                seq![OutgoingView::Datagram(self.datagram_tx[0])],
                false,
                max_datagram,
                now,
            );
            let all = match datagram {
                Some(d) => out.push(d),
                None => out,
            };
            (next, all, all.len() < MAX_BATCH)
        } else {
            let (c, frames, ack_eliciting) = self.next_frames(space, max_datagram);
            if frames.len() == 0 {
                (c, out, false)
            } else {
                let (next, datagram) = c.with_packet(
                    space,
                    frames,
                    ack_eliciting,
                    max_datagram,
                    now,
                );
                match datagram {
                    Some(d) => (next, out.push(d), out.len() + 1 < MAX_BATCH),
                    None => (next, out, false),
                }
            }
        }
    }

    /// Rounds of a space's packets until there is nothing left, the window is full or the
    /// batch is.
    pub open spec fn rounds(
        self,
        space: PnSpace,
        max_datagram: u64,
        out: Seq<Seq<u8>>,
        now: u64,
    ) -> (ConnView, Seq<Seq<u8>>)
        decreases self.datagram_tx.len(), MAX_BATCH - out.len(),
    {
        let (next, all, more) = self.round(space, max_datagram, out, now);
        if more && shrinks(
            next.datagram_tx.len(),
            self.datagram_tx.len(),
            all.len(),
            out.len(),
        ) {
            next.rounds(space, max_datagram, all, now)
        } else {
            (next, all)
        }
    }

    /// The packets of one space: an acknowledgement that is due, then rounds.
    pub open spec fn flushed(
        self,
        space: PnSpace,
        max_datagram: u64,
        out: Seq<Seq<u8>>,
        now: u64,
    ) -> (ConnView, Seq<Seq<u8>>) {
        let s = self.spaces[space.place()];
        if s.write_key is None {
            (self, out)
        } else {
            let (c, first) = match s.ack_frame() {
                Some(ack) if s.ack_pending => {
                    let (next, datagram) = self.with_space(
                        space.place(),
                        SpaceView { ack_pending: false, ..s },
                    ).with_packet(space, seq![ack], false, max_datagram, now);
                    (
                        next,
                        match datagram {
                            Some(d) => out.push(d),
                            None => out,
                        },
                    )
                },
                _ => (self, out),
            };
            c.rounds(space, max_datagram, first, now)
        }
    }

    /// The largest datagram to send: what the peer accepts, at most a full one.
    pub open spec fn max_datagram(self) -> u64 {
        let peer = match self.tls.peer_tp {
            Some(tp) => max_int(tp.max_udp_payload_size as int, 1200),
            None => 1200,
        };
        min_int(peer, MAX_UDP_PAYLOAD as int) as u64
    }

    /// Every datagram that can be sent now, and the connection behind them.
    pub open spec fn outbound(self, now: u64) -> (ConnView, Seq<Seq<u8>>) {
        if self.closed is Some {
            (self, Seq::empty())
        } else {
            let max = self.max_datagram();
            let (a, x) = self.flushed(PnSpace::Initial, max, Seq::empty(), now);
            let (b, y) = a.flushed(PnSpace::Handshake, max, x, now);
            b.flushed(PnSpace::Application, max, y, now)
        }
    }

    // -- Timers -------------------------------------------------------------

    /// The first sent packet from the `k`th on that is still awaited.
    pub open spec fn awaited(self, i: int, k: int) -> int
        decreases self.spaces[i].sent.len() - k,
    {
        let sent = self.spaces[i].sent;
        if 0 <= k < sent.len() && !(sent[k].ack_eliciting && sent[k].in_flight) {
            self.awaited(i, k + 1)
        } else {
            k
        }
    }

    /// Whether a probe of a space has something to send again.
    pub open spec fn has_awaited(self, space: PnSpace) -> bool {
        let i = space.place();
        self.spaces[i].write_key is Some && self.awaited(i, 0) < self.spaces[i].sent.len()
    }

    /// With the oldest awaited packet of a space given up.
    pub open spec fn given_up(self, space: PnSpace, now: u64) -> ConnView {
        let frames = self.spaces[space.place()].sent[self.awaited(space.place(), 0)].frames;
        self.after_lost(space, frames, frames.len() as int, now)
    }

    /// After a probe timeout: the oldest awaited packet is sent again, of the application
    /// space first, and a PING that the peer has to answer, whatever is left to send.
    pub open spec fn probed(self, now: u64) -> ConnView {
        let c = if self.has_awaited(PnSpace::Application) {
            self.given_up(PnSpace::Application, now)
        } else if self.has_awaited(PnSpace::Handshake) {
            self.given_up(PnSpace::Handshake, now)
        } else if self.has_awaited(PnSpace::Initial) {
            self.given_up(PnSpace::Initial, now)
        } else {
            self
        };
        ConnView { recovery: c.recovery.probed(now), ping_pending: true, ..c }
    }

    /// After the timers are looked at.
    pub open spec fn after_timer(self, now: u64) -> ConnView {
        let t = self.timers;
        let idle = minus(now, t.last_recv);
        if !self.handshake_complete && idle > t.handshake_timeout {
            ConnView { closed: Some(QuicFault::Timeout), ..self }
        } else if self.handshake_complete && t.keep_alive_interval is None && idle
            > t.idle_timeout {
            ConnView { closed: Some(QuicFault::IdleTimeout), ..self }
        } else {
            let kept = match t.keep_alive_interval {
                Some(interval) if self.handshake_complete && now >= t.keep_alive_next => ConnView {
                    ping_pending: true,
                    timers: Timers { keep_alive_next: capped(now + interval), ..t },
                    ..self
                },
                _ => self,
            };
            match kept.recovery.pto_due {
                Some(due) if now >= due => kept.probed(now),
                _ => kept,
            }
        }
    }

    // -- Streams and datagrams ----------------------------------------------

    /// The identifier of the next stream of a kind, and how many the peer allows.
    pub open spec fn next_stream(self, uni: bool) -> (u64, u64) {
        if uni {
            (self.limits.next_uni, self.limits.peer_uni_limit)
        } else {
            (self.limits.next_bidi, self.limits.peer_bidi_limit)
        }
    }

    /// Whether another stream may be opened.
    pub open spec fn may_open(self, uni: bool) -> bool {
        let (id, limit) = self.next_stream(uni);
        id / 4 < limit && id <= u64::MAX - 4
    }

    /// With a new stream in place of whatever had its identifier.
    pub open spec fn placed_stream(self, id: u64, s: StreamView) -> ConnView {
        let i = self.stream(id);
        ConnView {
            streams: if i < self.streams.len() {
                self.streams.update(i, (id, s))
            } else {
                self.streams.push((id, s))
            },
            ..self
        }
    }

    /// With another stream open. Where it runs in both directions, the peer may send up to
    /// the window that was advertised.
    pub open spec fn opened_stream(self, uni: bool) -> ConnView {
        let id = self.next_stream(uni).0;
        let l = self.limits;
        let c = ConnView {
            limits: if uni {
                Limits { next_uni: (l.next_uni + 4) as u64, ..l }
            } else {
                Limits { next_bidi: (l.next_bidi + 4) as u64, ..l }
            },
            ..self
        };
        c.placed_stream(
            id,
            StreamView::opened(
                if uni {
                    l.peer_max_stream_data_uni
                } else {
                    l.peer_max_stream_data_bidi
                },
                if uni {
                    0
                } else {
                    l.my_max_stream_data_bidi_local
                },
            ),
        )
    }

    /// The first stream from the `i`th on that the peer opened in one direction and that
    /// can be read.
    pub open spec fn readable_from(self, i: int) -> int
        decreases self.streams.len() - i,
    {
        if 0 <= i < self.streams.len() && !(self.streams[i].0 % 4 == 3 && (
        self.streams[i].1.recv_prefix.len() > 0 || self.streams[i].1.fin_recv)) {
            self.readable_from(i + 1)
        } else {
            i
        }
    }

    /// With the connection closed, unless it already is.
    pub open spec fn closed_with(self, f: QuicFault) -> ConnView {
        if self.closed is Some {
            self
        } else {
            ConnView { closed: Some(f), ..self }
        }
    }
}

// ---------------------------------------------------------------------------
// Parsing
// ---------------------------------------------------------------------------

/// Where the packet number of a long header begins, and how many bytes the header announces
/// from there on.
fn read_long_fields(data: &[u8]) -> (r: Option<(usize, u64)>)
    ensures
        match long_fields(data@) {
            Some((at, len)) => r is Some && r->Some_0.0 == at && r->Some_0.1 == len && 1 <= at
                <= data@.len(),
            None => r is None,
        },
{
    if data.len() < 7 {
        return None;
    }
    let dcid_len: usize = data[5] as usize;
    if data.len() - 7 < dcid_len {
        return None;
    }
    let scid_at: usize = 6 + dcid_len;
    let scid_len: usize = data[scid_at] as usize;
    let mut pos: usize = scid_at + 1;
    if data.len() - pos < scid_len {
        return None;
    }
    pos = pos + scid_len;
    let rest = slice_subrange(data, pos, data.len());
    proof {
        assert(rest@ =~= data@.skip(pos as int));
    }
    if (data[0] / 16) % 4 == 0 {
        let (token_len, used) = match decode_varint(rest) {
            Ok(v) => v,
            Err(_) => return None,
        };
        pos = pos + used;
        if token_len > (data.len() - pos) as u64 {
            return None;
        }
        pos = pos + token_len as usize;
        let behind = slice_subrange(data, pos, data.len());
        proof {
            assert(behind@ =~= data@.skip(pos as int));
        }
        match decode_varint(behind) {
            Ok((len, used)) => Some((pos + used, len)),
            Err(_) => None,
        }
    } else {
        match decode_varint(rest) {
            Ok((len, used)) => Some((pos + used, len)),
            Err(_) => None,
        }
    }
}

/// Where the packet number of a long header begins.
pub fn long_pn_offset(data: &[u8]) -> (r: Option<usize>)
    ensures
        match long_pn_at(data@) {
            Some(at) => r is Some && r->Some_0 == at && 1 <= at <= data@.len(),
            None => r is None,
        },
{
    match read_long_fields(data) {
        Some((at, _)) => Some(at),
        None => None,
    }
}

/// Bytes of the first packet of a datagram.
pub fn first_packet_len(data: &[u8]) -> (n: usize)
    ensures
        n == packet_len(data@),
        n <= data@.len(),
        data@.len() > 0 ==> n > 0,
{
    let all: usize = data.len();
    if all < 5 || data[0] < 0x80 || (data[0] / 16) % 4 == 3 || crate::wire::read_be(data, 1, 4)
        != QUIC_VERSION as u64 {
        return all;
    }
    match read_long_fields(data) {
        Some((at, len)) => if len < (all - at) as u64 {
            at + len as usize
        } else {
            all
        },
        None => all,
    }
}

/// The parts of a Retry packet.
#[derive(Debug)]
pub struct Retry {
    pub dcid: Vec<u8>,
    pub scid: Vec<u8>,
    pub token: Vec<u8>,
    pub tag: Vec<u8>,
}

impl View for Retry {
    type V = RetryView;

    open spec fn view(&self) -> RetryView {
        RetryView {
            dcid: self.dcid@,
            scid: self.scid@,
            token: self.token@,
            tag: self.tag@,
        }
    }
}

/// Parse a Retry packet.
pub fn parse_retry(data: &[u8]) -> (r: Result<Retry>)
    ensures
        match retry_of(data@) {
            Ok(v) => r is Ok && r->Ok_0@ == v && v.dcid.len() <= 255 && v.scid.len() <= 255
                && v.tag.len() == 16,
            Err(f) => r is Err && r->Err_0@ == f,
        },
{
    if data.len() < 7 {
        return Err(protocol("truncated Retry"));
    }
    let dcid_len: usize = data[5] as usize;
    if data.len() - 7 < dcid_len {
        return Err(protocol("truncated Retry"));
    }
    let at: usize = 6 + dcid_len;
    let scid_len: usize = data[at] as usize;
    let mut pos: usize = at + 1;
    if data.len() - pos < scid_len + 2 {
        return Err(protocol("truncated Retry"));
    }
    pos = pos + scid_len;
    let dcid = copy_range(data, 6, at);
    let scid = copy_range(data, at + 1, pos);
    let rest = slice_subrange(data, pos, data.len());
    proof {
        assert(rest@ =~= data@.skip(pos as int));
    }
    let (token_len, used) = match decode_varint(rest) {
        Ok(v) => v,
        Err(m) => return Err(QuicError::Protocol(m)),
    };
    pos = pos + used;
    if data.len() - pos < 16 || token_len > (data.len() - pos - 16) as u64 {
        return Err(protocol("truncated Retry"));
    }
    let token = copy_range(data, pos, pos + token_len as usize);
    pos = pos + token_len as usize;
    let tag = copy_range(data, pos, pos + 16);
    Ok(Retry { dcid, scid, token, tag })
}

/// What the tag of a Retry packet covers.
fn pseudo_packet(r: &Retry) -> (out: Vec<u8>)
    requires
        r.dcid@.len() <= 255,
        r.scid@.len() <= 255,
    ensures
        out@ == retry_pseudo(r@),
{
    let mut out: Vec<u8> = Vec::new();
    out.push(r.dcid.len() as u8);
    extend(&mut out, &r.dcid);
    extend(&mut out, &[0x40, 0x00, 0x00, 0x00, 0x01]);
    out.push(r.scid.len() as u8);
    extend(&mut out, &r.scid);
    extend(&mut out, &varint(r.token.len() as u64));
    extend(&mut out, &r.token);
    proof {
        assert(out@ =~= retry_pseudo(r@));
    }
    out
}

// ---------------------------------------------------------------------------
// The connection
// ---------------------------------------------------------------------------

proof fn lemma_stream_from(streams: Seq<(u64, StreamView)>, id: u64, i: int)
    requires
        0 <= i <= streams.len(),
    ensures
        i <= stream_from(streams, id, i) <= streams.len(),
        stream_from(streams, id, i) < streams.len() ==> streams[stream_from(streams, id, i)].0
            == id,
        forall|k: int| i <= k < stream_from(streams, id, i) ==> (#[trigger] streams[k]).0 != id,
    decreases streams.len() - i,
{
    if i < streams.len() && streams[i].0 != id {
        lemma_stream_from(streams, id, i + 1);
    }
}

impl ConnState {
    /// The place of a stream, or the number of streams where there is none.
    fn find_stream(&self, id: u64) -> (r: usize)
        ensures
            r == self@.stream(id),
            r <= self@.streams.len(),
            r <= self.streams@.len(),
    {
        let ghost all = self@.streams;
        let mut i: usize = 0;
        while i < self.streams.len() && self.streams[i].0 != id
            invariant
                i <= self.streams@.len(),
                all == streams_view(self.streams@),
                stream_from(all, id, 0) == stream_from(all, id, i as int),
            decreases self.streams@.len() - i,
        {
            i = i + 1;
        }
        i
    }

    fn on_acked_frame(&mut self, space: PnSpace, f: &Outgoing)
        requires
            old(self)@.wf(),
        ensures
            final(self)@ == old(self)@.on_acked_frame(space, f@),
            final(self)@.wf(),
    {
        match f {
            Outgoing::Stream { stream_id, offset, data, fin } => {
                let i: usize = self.find_stream(*stream_id);
                if i < self.streams.len() {
                    let ghost s = self@.streams[i as int].1;
                    proof {
                        assert(self@.streams[i as int].1.wf());
                    }
                    self.streams[i].1.on_acked(*offset, data.len(), *fin);
                    proof {
                        let next = old(self)@.with_stream(i as int, s.acked(*offset, data@.len(), *fin));
                        assert(self@.streams =~= next.streams);
                        assert(self@ =~= next);
                    }
                }
            },
            Outgoing::Crypto { offset, data } => {
                let i: usize = space.index();
                proof {
                    assert(self@.spaces[i as int].wf());
                }
                self.spaces[i].on_crypto_acked(*offset, data.len());
                proof {
                    let next = old(self)@.on_acked_frame(space, f@);
                    assert(self@.spaces =~= next.spaces);
                    assert(self@ =~= next);
                }
            },
            _ => {},
        }
    }

    fn on_lost_frame(&mut self, space: PnSpace, f: &Outgoing, now: u64)
        requires
            old(self)@.wf(),
        ensures
            final(self)@ == old(self)@.on_lost_frame(space, f@, now),
            final(self)@.wf(),
    {
        match f {
            Outgoing::Stream { stream_id, offset, data, fin } => {
                let i: usize = self.find_stream(*stream_id);
                if i < self.streams.len() {
                    let ghost s = self@.streams[i as int].1;
                    proof {
                        assert(self@.streams[i as int].1.wf());
                    }
                    self.streams[i].1.on_lost(*offset, *fin);
                    proof {
                        let next = old(self)@.with_stream(i as int, s.lost(*offset, *fin));
                        assert(self@.streams =~= next.streams);
                        assert(self@ =~= next);
                    }
                }
            },
            Outgoing::Crypto { offset, data } => {
                let i: usize = space.index();
                proof {
                    assert(self@.spaces[i as int].wf());
                }
                self.spaces[i].on_crypto_lost(*offset);
                proof {
                    let next = old(self)@.with_space(
                        i as int,
                        old(self)@.spaces[i as int].crypto_lost(*offset),
                    );
                    assert(self@.spaces =~= next.spaces);
                    assert(self@ =~= next);
                }
            },
            Outgoing::MaxData(_) => {
                self.pending_max_data.push(self.limits.max_data_advertised);
                proof {
                    assert(self@ =~= (ConnView {
                        pending_max_data: old(self)@.pending_max_data.push(
                            old(self)@.limits.max_data_advertised,
                        ),
                        ..old(self)@
                    }));
                }
            },
            Outgoing::MaxStreamData { stream_id, max } => {
                let i: usize = self.find_stream(*stream_id);
                if i < self.streams.len() {
                    let limit: u64 = self.streams[i].1.peer_send_limit();
                    self.pending_max_stream_data.push((*stream_id, limit));
                    proof {
                        assert(self@ =~= (ConnView {
                            pending_max_stream_data: old(self)@.pending_max_stream_data.push(
                                (*stream_id, old(self)@.streams[i as int].1.peer_send_limit),
                            ),
                            ..old(self)@
                        }));
                    }
                }
            },
            _ => {},
        }
        let ghost c = self@;
        self.recovery.on_loss(now);
        proof {
            assert(self@ =~= (ConnView { recovery: c.recovery.lost(now), ..c }));
        }
    }
}

impl ConnState {
    /// Take an ACK frame.
    #[verifier::rlimit(30)]
    pub fn on_ack(
        &mut self,
        space: PnSpace,
        largest: u64,
        delay: u64,
        ranges: &Vec<(u64, u64)>,
        now: u64,
    )
        requires
            old(self)@.wf(),
        ensures
            final(self)@ == old(self)@.on_ack(space, largest, delay, ranges@, now),
            final(self)@.wf(),
    {
        let i: usize = space.index();
        let named = ack_intervals(largest, ranges);
        let recovery = self.recovery;
        proof {
            assert(self@.spaces[i as int].wf());
        }
        let s = self.spaces[i].sort_sent(&named, &recovery, now);
        self.recovery.bytes_in_flight = s.in_flight;
        let ghost v = sorted(old(self)@.spaces[i as int].sent, named@, recovery, now);
        let ghost taken = ConnView {
            recovery: Recovery { bytes_in_flight: v.in_flight, ..old(self)@.recovery },
            ..old(self)@.with_space(
                i as int,
                SpaceView { sent: v.kept, ..old(self)@.spaces[i as int] },
            )
        };
        proof {
            assert(self@.spaces =~= taken.spaces);
            assert(self@ =~= taken);
        }
        let mut k: usize = 0;
        while k < s.acked.len()
            invariant
                k <= s.acked@.len(),
                frames_view(s.acked@) == v.acked,
                self@.wf(),
                self@ == taken.after_acked(space, v.acked, k as int),
            decreases s.acked@.len() - k,
        {
            proof {
                assert(v.acked[k as int] == s.acked@[k as int]@);
            }
            self.on_acked_frame(space, &s.acked[k]);
            k = k + 1;
        }
        let ghost acked = self@;
        let mut k: usize = 0;
        while k < s.lost.len()
            invariant
                k <= s.lost@.len(),
                frames_view(s.lost@) == v.lost,
                self@.wf(),
                self@ == acked.after_lost(space, v.lost, k as int, now),
            decreases s.lost@.len() - k,
        {
            proof {
                assert(v.lost[k as int] == s.lost@[k as int]@);
            }
            self.on_lost_frame(space, &s.lost[k], now);
            k = k + 1;
        }
        let ghost c = self@;
        proof {
            assert(v.acked.len() == s.acked@.len());
            assert(v.lost.len() == s.lost@.len());
        }
        self.recovery.on_acks_cc(count_named(&named));
        if let Some(sent_at) = s.newest {
            self.recovery.sample_rtt(sent_at, delay, now);
        }
        self.recovery.pto_count = 0;
        self.recovery.pto_due = None;
        proof {
            assert(self@ =~= old(self)@.on_ack(space, largest, delay, ranges@, now));
        }
    }

    /// Put the keys of the handshake into the spaces.
    fn install_keys(&mut self)
        requires
            old(self)@.wf(),
        ensures
            final(self)@ == old(self)@.with_keys(),
            final(self)@.wf(),
    {
        let ghost h = self@.spaces[1];
        let ghost a = self@.spaces[2];
        proof {
            assert(h.wf() && a.wf());
        }
        if self.spaces[1].write_key.is_none() && !self.handshake_confirmed {
            if let Some(k) = self.tls.hs_write() {
                self.spaces[1].write_key = Some(k.copy());
            }
        }
        if self.spaces[1].key.is_none() && !self.handshake_confirmed {
            if let Some(k) = self.tls.hs_read() {
                self.spaces[1].key = Some(k.copy());
            }
        }
        if self.tls.is_complete() {
            if let Some(k) = self.tls.app_write() {
                self.spaces[2].write_key = Some(k.copy());
            }
            if let Some(k) = self.tls.app_read() {
                self.spaces[2].key = Some(k.copy());
            }
        }
        proof {
            let next = old(self)@.with_keys();
            assert(self@.spaces[0] == old(self)@.spaces[0]);
            assert(self@.spaces[1] =~= next.spaces[1]);
            assert(self@.spaces[2] =~= next.spaces[2]);
            assert(self@.spaces =~= next.spaces);
            assert(self@ =~= next);
        }
    }

    /// Take over the limits that the peer's transport parameters give.
    fn apply_peer_limits(&mut self)
        requires
            old(self)@.wf(),
        ensures
            final(self)@ == old(self)@.with_peer_limits(),
            final(self)@.wf(),
    {
        if self.tls.is_complete() {
            if let Some(tp) = self.tls.peer_tp() {
                let l = self.limits;
                self.limits = Limits {
                    peer_bidi_limit: larger(l.peer_bidi_limit, tp.initial_max_streams_bidi),
                    peer_uni_limit: larger(l.peer_uni_limit, tp.initial_max_streams_uni),
                    peer_max_data: larger(l.peer_max_data, tp.initial_max_data),
                    peer_max_stream_data_bidi: larger(
                        l.peer_max_stream_data_bidi,
                        tp.initial_max_stream_data_bidi_remote,
                    ),
                    peer_max_stream_data_uni: larger(
                        l.peer_max_stream_data_uni,
                        tp.initial_max_stream_data_uni,
                    ),
                    ..l
                };
                proof {
                    assert(self@ =~= old(self)@.with_peer_limits());
                }
            }
        }
    }

    /// Take CRYPTO data.
    #[verifier::rlimit(30)]
    pub fn on_crypto(&mut self, space: PnSpace, offset: u64, data: &[u8]) -> (r: Result<()>)
        requires
            old(self)@.wf(),
        ensures
            final(self)@ == old(self)@.on_crypto(space, offset, data@).0,
            match old(self)@.on_crypto(space, offset, data@).1 {
                Ok(_) => r is Ok,
                Err(f) => r is Err && r->Err_0@ == f,
            },
            final(self)@.wf(),
    {
        let i: usize = space.index();
        let ghost before = self@;
        let ghost s = before.spaces[i as int];
        proof {
            assert(s.wf());
        }
        match self.spaces[i].receive_crypto(offset, data) {
            Ok(_) => {},
            Err(e) => {
                proof {
                    assert(self@.spaces =~= before.spaces);
                    assert(self@ =~= before);
                }
                return Err(e);
            },
        }
        let ghost sp = s.with_crypto(offset, data@)->Ok_0;
        proof {
            assert(self@.spaces =~= before.spaces.update(i as int, sp));
        }
        let consumed = self.tls.consume_crypto(&self.spaces[i].crypto_recv);
        let ghost (tls, result) = before.tls.consumed(sp.crypto_recv, 0);
        proof {
            assert(self@ =~= (ConnView { tls, ..before.with_space(i as int, sp) }));
        }
        let n: usize = match consumed {
            Ok(n) => n,
            Err(e) => return Err(e),
        };
        self.spaces[i].consumed_crypto(n);
        let ghost read = before.with_space(i as int, sp.crypto_read(n as int));
        proof {
            assert(self@.spaces =~= read.spaces);
        }
        let pending = self.tls.take_crypto_pending();
        proof {
            assert(self@.spaces[1].wf()) by {
                if i != 1 {
                    assert(before.spaces[1].wf());
                }
            }
        }
        self.spaces[1].queue_crypto(&pending);
        let ghost queued = ConnView {
            tls: HandshakeView { pending: Seq::empty(), ..tls },
            ..read.with_space(1, read.spaces[1].queued(tls.pending))
        };
        proof {
            assert(self@.spaces =~= queued.spaces);
            assert(self@ =~= queued);
            assert forall|k: int| 0 <= k < 3 implies (#[trigger] self@.spaces[k]).wf() by {
                assert(before.spaces[k].wf());
            }
        }
        self.install_keys();
        self.apply_peer_limits();
        if self.tls.is_complete() {
            self.handshake_complete = true;
        }
        proof {
            assert(self@ =~= before.on_crypto(space, offset, data@).0);
        }
        Ok(())
    }

    fn recv_window(&self, id: u64) -> (r: u64)
        ensures
            r == self@.recv_window(id),
    {
        if id % 2 == 0 {
            self.limits.my_max_stream_data_bidi_local
        } else if (id / 2) % 2 != 0 {
            self.limits.my_max_stream_data_uni
        } else {
            self.limits.my_max_stream_data_bidi_remote
        }
    }

    /// Raise the windows of a stream and of the connection where more than half of them is
    /// used.
    fn bump_recv_credit(&mut self, i: usize)
        requires
            old(self)@.wf(),
            i < old(self)@.streams.len(),
        ensures
            final(self)@ == old(self)@.credited(i as int),
            final(self)@.wf(),
    {
        let ghost before = self@;
        proof {
            assert(before.streams[i as int].1.wf());
        }
        if let Some(max) = self.streams[i].1.credit() {
            let id: u64 = self.streams[i].0;
            self.pending_max_stream_data.push((id, max));
        }
        proof {
            let s = before.streams[i as int].1;
            assert(self@.streams =~= before.with_stream(i as int, s.credited()).streams);
            assert(s.next_limit() is None ==> self@.streams =~= before.streams);
        }
        let advertised: u64 = self.limits.max_data_advertised;
        if self.limits.total_recv > advertised - advertised / 2 {
            let max: u64 = advertised.saturating_add(advertised / 2);
            self.limits.max_data_advertised = max;
            self.pending_max_data.push(max);
        }
        proof {
            assert(self@ =~= before.credited(i as int));
        }
    }

    /// Take a STREAM frame.
    pub fn on_stream(&mut self, id: u64, offset: u64, data: &[u8], fin: bool) -> (r: Result<()>)
        requires
            old(self)@.wf(),
        ensures
            final(self)@ == old(self)@.on_stream(id, offset, data@, fin).0,
            match old(self)@.on_stream(id, offset, data@, fin).1 {
                Ok(_) => r is Ok,
                Err(f) => r is Err && r->Err_0@ == f,
            },
            final(self)@.wf(),
    {
        let ghost before = self@;
        let i: usize = self.find_stream(id);
        proof {
            lemma_stream_from(before.streams, id, 0);
        }
        if i == self.streams.len() {
            let window: u64 = self.recv_window(id);
            self.streams.push((id, StreamState::new(0, window)));
        }
        let ghost c = before.with_new_stream(id);
        proof {
            assert(self@.streams =~= c.streams);
            assert(self@ =~= c);
            lemma_stream_from(c.streams, id, 0);
            assert(c.streams[i as int].0 == id);
            assert(c.stream(id) == i);
            assert(c.streams[i as int].1.wf());
        }
        match self.streams[i].1.on_data(offset, data, fin) {
            Ok(_) => {},
            Err(e) => {
                proof {
                    assert(self@.streams =~= c.streams);
                    assert(self@ =~= c);
                }
                return Err(e);
            },
        }
        self.limits.total_recv = self.limits.total_recv.saturating_add(data.len() as u64);
        proof {
            let s = c.streams[i as int].1.received(offset, data@, fin)->Ok_0;
            let next = ConnView {
                limits: Limits {
                    total_recv: capped(c.limits.total_recv + data@.len()),
                    ..c.limits
                },
                ..c.with_stream(i as int, s)
            };
            assert(self@.streams =~= next.streams);
            assert(self@ =~= next);
        }
        self.bump_recv_credit(i);
        Ok(())
    }
}

impl ConnState {
    /// Take one frame of a packet.
    pub fn process_frame(&mut self, space: PnSpace, frame: Frame, now: u64) -> (r: Result<()>)
        requires
            old(self)@.wf(),
        ensures
            final(self)@ == old(self)@.on_frame(space, frame@, now).0,
            match old(self)@.on_frame(space, frame@, now).1 {
                Ok(_) => r is Ok,
                Err(f) => r is Err && r->Err_0@ == f,
            },
            final(self)@.wf(),
    {
        let ghost before = self@;
        match frame {
            Frame::Ack { largest, delay, ranges } => {
                self.on_ack(space, largest, delay, &ranges, now);
                Ok(())
            },
            Frame::Crypto { offset, data } => self.on_crypto(space, offset, &data),
            Frame::Stream { stream_id, offset, data, fin } => {
                let offset: u64 = match offset {
                    Some(o) => o,
                    None => 0,
                };
                self.on_stream(stream_id, offset, &data, fin)
            },
            Frame::MaxData(max) => {
                if max > self.limits.peer_max_data {
                    self.limits.peer_max_data = max;
                }
                proof {
                    assert(self@ =~= before.on_frame(space, frame@, now).0);
                }
                Ok(())
            },
            Frame::MaxStreamData { stream_id, max } => {
                let i: usize = self.find_stream(stream_id);
                if i < self.streams.len() {
                    proof {
                        assert(before.streams[i as int].1.wf());
                    }
                    self.streams[i].1.on_max_stream_data(max);
                }
                proof {
                    let next = before.on_frame(space, frame@, now).0;
                    assert(self@.streams =~= next.streams);
                    assert(self@ =~= next);
                }
                Ok(())
            },
            Frame::MaxStreams { unidirectional, max } => {
                if unidirectional {
                    if max > self.limits.peer_uni_limit {
                        self.limits.peer_uni_limit = max;
                    }
                } else if max > self.limits.peer_bidi_limit {
                    self.limits.peer_bidi_limit = max;
                }
                proof {
                    assert(self@ =~= before.on_frame(space, frame@, now).0);
                }
                Ok(())
            },
            Frame::ResetStream { stream_id, error_code } => {
                let i: usize = self.find_stream(stream_id);
                if i < self.streams.len() {
                    proof {
                        assert(before.streams[i as int].1.wf());
                    }
                    self.streams[i].1.on_reset(error_code);
                }
                proof {
                    let next = before.on_frame(space, frame@, now).0;
                    assert(self@.streams =~= next.streams);
                    assert(self@ =~= next);
                }
                Ok(())
            },
            Frame::ConnectionClose { error_code, reason } => {
                self.closed = Some(QuicError::ClosedByPeer { error_code, reason: lossy(&reason) });
                proof {
                    assert(self@ =~= before.on_frame(space, frame@, now).0);
                }
                Ok(())
            },
            Frame::HandshakeDone => {
                self.handshake_confirmed = true;
                proof {
                    assert(before.spaces[0].wf() && before.spaces[1].wf() && before.spaces[2].wf());
                }
                let initial: u64 = self.spaces[0].discard();
                proof {
                    assert(self.spaces@[1]@ == before.spaces[1]);
                }
                let handshake: u64 = self.spaces[1].discard();
                self.recovery.bytes_in_flight = self.recovery.bytes_in_flight.saturating_sub(
                    initial,
                ).saturating_sub(handshake);
                proof {
                    let next = before.on_frame(space, frame@, now).0;
                    assert(self@.spaces =~= next.spaces);
                    assert(self@ =~= next);
                }
                Ok(())
            },
            Frame::Datagram(data) => {
                self.datagram_rx.push_back(data);
                proof {
                    let next = before.on_frame(space, frame@, now).0;
                    assert(self@.datagram_rx =~= next.datagram_rx);
                    assert(self@ =~= next);
                }
                Ok(())
            },
            Frame::Other => Ok(()),
        }
    }

    fn process_frames(&mut self, space: PnSpace, plain: &[u8], now: u64) -> (r: Result<()>)
        requires
            old(self)@.wf(),
        ensures
            final(self)@ == old(self)@.on_frames(space, plain@, 0, now).0,
            match old(self)@.on_frames(space, plain@, 0, now).1 {
                Ok(_) => r is Ok,
                Err(f) => r is Err && r->Err_0@ == f,
            },
            final(self)@.wf(),
    {
        let ghost whole = self@.on_frames(space, plain@, 0, now);
        let mut pos: usize = 0;
        while pos < plain.len()
            invariant
                pos <= plain@.len(),
                self@.wf(),
                whole == self@.on_frames(space, plain@, pos as int, now),
                whole == old(self)@.on_frames(space, plain@, 0, now),
            decreases plain@.len() - pos,
        {
            let rest = slice_subrange(plain, pos, plain.len());
            proof {
                assert(rest@ =~= plain@.skip(pos as int));
            }
            let (frame, used) = match decode_frame(rest) {
                Ok(f) => f,
                Err(m) => return Err(QuicError::Protocol(m)),
            };
            match self.process_frame(space, frame, now) {
                Ok(_) => {},
                Err(e) => return Err(e),
            }
            pos = pos + used;
        }
        Ok(())
    }

    /// The header of a packet whose packet number begins at `pn_offset`, and its payload.
    fn unseal(&self, data: &[u8], space: PnSpace, pn_offset: usize, long: bool) -> (r: Result<
        Option<(Parsed, Option<Vec<u8>>)>,
    >)
        requires
            self@.wf(),
            1 <= pn_offset <= data@.len(),
        ensures
            match self@.unsealed(data@, space, pn_offset as int, long) {
                Err(f) => r is Err && r->Err_0@ == f,
                Ok(None) => r is Ok && r->Ok_0 is None,
                Ok(Some((p, plain))) => r is Ok && r->Ok_0 is Some && r->Ok_0->Some_0.0@ == p
                    && opt_bytes(r->Ok_0->Some_0.1) == plain,
            },
    {
        let i: usize = space.index();
        proof {
            assert(self@.spaces[i as int].wf());
        }
        if data.len() - pn_offset < 21 {
            return Ok(None);
        }
        let key = match &self.spaces[i].key {
            Some(k) => k,
            None => return Ok(None),
        };
        let mut packet = slice_to_vec(data);
        match unprotect_header(key, packet.as_mut_slice(), pn_offset, long) {
            Ok(_) => {},
            Err(m) => return Err(QuicError::Protocol(m)),
        }
        let largest: u64 = self.spaces[i].largest_recv_pn;
        let parsed = match parse_packet(&packet, largest, self.scid.len()) {
            Ok(p) => p,
            Err(m) => return Err(QuicError::Protocol(m)),
        };
        let end: usize = pn_offset + parsed.pn_len;
        if (parsed.pn <= largest && self.spaces[i].ack_queue.holds(parsed.pn)) || (largest
            >= MAX_PN_AGE && parsed.pn <= largest - MAX_PN_AGE) {
            return Ok(None);
        }
        let header = slice_subrange(packet.as_slice(), 0, end);
        let body = slice_subrange(packet.as_slice(), end, packet.len());
        proof {
            assert(header@ =~= packet@.take(end as int));
            assert(body@ =~= packet@.skip(end as int));
        }
        let plain = open(key, parsed.pn, header, body);
        Ok(Some((parsed, plain)))
    }

    /// Take the payload of a packet.
    fn process_payload(&mut self, space: PnSpace, pn: u64, plain: &[u8], now: u64) -> (r: Result<()>)
        requires
            old(self)@.wf(),
        ensures
            final(self)@ == old(self)@.on_payload(space, pn, plain@, now).0,
            match old(self)@.on_payload(space, pn, plain@, now).1 {
                Ok(_) => r is Ok,
                Err(f) => r is Err && r->Err_0@ == f,
            },
            final(self)@.wf(),
    {
        match self.process_frames(space, plain, now) {
            Ok(_) => {},
            Err(e) => return Err(e),
        }
        if self.closed.is_none() {
            self.remember(space, pn);
        }
        Ok(())
    }

    /// Take a packet whose packet number begins at `pn_offset`.
    fn process_packet(
        &mut self,
        data: &[u8],
        space: PnSpace,
        pn_offset: usize,
        long: bool,
        now: u64,
    ) -> (r: Result<()>)
        requires
            old(self)@.wf(),
            1 <= pn_offset <= data@.len(),
        ensures
            final(self)@ == old(self)@.on_packet(data@, space, pn_offset as int, long, now).0,
            match old(self)@.on_packet(data@, space, pn_offset as int, long, now).1 {
                Ok(_) => r is Ok,
                Err(f) => r is Err && r->Err_0@ == f,
            },
            final(self)@.wf(),
    {
        let (parsed, plain) = match self.unseal(data, space, pn_offset, long) {
            Ok(Some(p)) => p,
            Ok(None) => return Ok(()),
            Err(e) => return Err(e),
        };
        let ghost scid = parsed@.scid;
        let pn: u64 = parsed.pn;
        if let Some(id) = parsed.scid {
            if id.len() != 0 {
                self.dcid = id;
            }
        }
        proof {
            assert(self@ =~= old(self)@.addressed(scid));
        }
        match plain {
            Some(plain) => self.process_payload(space, pn, &plain, now),
            None => Ok(()),
        }
    }

    /// Remember a packet number for acknowledgement.
    fn remember(&mut self, space: PnSpace, pn: u64)
        requires
            old(self)@.wf(),
        ensures
            final(self)@ == old(self)@.with_received(space, pn),
            final(self)@.wf(),
    {
        let i: usize = space.index();
        let ghost s = self@.spaces[i as int];
        proof {
            assert(s.wf());
        }
        if pn > self.spaces[i].largest_recv_pn {
            self.spaces[i].largest_recv_pn = pn;
        }
        self.spaces[i].ack_queue.insert(pn);
        self.spaces[i].ack_pending = true;
        proof {
            let next = old(self)@.with_received(space, pn);
            assert(self@.spaces[i as int] =~= next.spaces[i as int]);
            assert(self@.spaces =~= next.spaces);
            assert(self@ =~= next);
            assert forall|k: int| 0 <= k < 3 implies (#[trigger] self@.spaces[k]).wf() by {
                if k != i {
                    assert(old(self)@.spaces[k].wf());
                }
            }
        }
    }

    /// The Initial space for a destination connection identifier, with the opening message
    /// to send.
    fn initial_space(&self, dcid: &Vec<u8>) -> (r: Space)
        requires
            1 <= dcid@.len() <= 20,
        ensures
            r@ == self@.initial_space(dcid@),
            r@.wf(),
    {
        let mut s = Space::new();
        s.key = Some(PacketKey::Initial { dcid: dcid.clone(), server: true });
        s.write_key = Some(PacketKey::Initial { dcid: dcid.clone(), server: false });
        proof {
            assert(s@ =~= (SpaceView {
                key: Some(PacketKeyView::Initial(dcid@, true)),
                write_key: Some(PacketKeyView::Initial(dcid@, false)),
                ..SpaceView::unused()
            }));
        }
        s.queue_crypto(self.tls.client_hello());
        s
    }

    /// Take a Retry packet.
    pub fn process_retry(&mut self, data: &[u8]) -> (r: Result<()>)
        requires
            old(self)@.wf(),
        ensures
            final(self)@ == old(self)@.on_retry(data@).0,
            match old(self)@.on_retry(data@).1 {
                Ok(_) => r is Ok,
                Err(f) => r is Err && r->Err_0@ == f,
            },
            final(self)@.wf(),
    {
        let ghost before = self@;
        let retry = match parse_retry(data) {
            Ok(r) => r,
            Err(e) => return Err(e),
        };
        let pseudo = pseudo_packet(&retry);
        if !ct_eq(&retry.dcid, &self.dcid) || gcm_open(
            &RETRY_KEY,
            &RETRY_NONCE,
            &pseudo,
            &retry.tag,
        ).is_none() {
            return Ok(());
        }
        let usable = retry.scid.len() >= 1 && retry.scid.len() <= 20;
        let space = if usable {
            self.initial_space(&retry.scid)
        } else {
            Space::new()
        };
        let ghost initial = space@;
        self.spaces.set(0, space);
        self.retry_token = retry.token;
        self.dcid = retry.scid;
        proof {
            assert(self@.spaces =~= before.spaces.update(0, initial));
            assert forall|k: int| 0 <= k < 3 implies (#[trigger] self@.spaces[k]).wf() by {
                if k != 0 {
                    assert(before.spaces[k].wf());
                }
            }
        }
        if !usable {
            proof {
                assert(self@ =~= before.on_retry(data@).0);
            }
            return Err(protocol("Protocol: QUIC Initial DCID must contain 1-20 bytes"));
        }
        self.tls.reset_after_retry();
        proof {
            assert(self@ =~= before.on_retry(data@).0);
        }
        Ok(())
    }

    /// Take one packet of a datagram. Anything that is not for this connection is dropped:
    /// stray datagrams can hit a socket at any time.
    fn process_one(&mut self, data: &[u8], now: u64) -> (r: Result<()>)
        requires
            old(self)@.wf(),
        ensures
            final(self)@ == old(self)@.on_one(data@, now).0,
            match old(self)@.on_one(data@, now).1 {
                Ok(_) => r is Ok,
                Err(f) => r is Err && r->Err_0@ == f,
            },
            final(self)@.wf(),
    {
        if self.closed.is_some() || data.len() == 0 {
            return Ok(());
        }
        let first: u8 = data[0];
        if first >= 0x80 {
            if data.len() < 5 {
                return Ok(());
            }
            let version: u64 = crate::wire::read_be(data, 1, 4);
            if version == 0 {
                return Err(protocol("server sent a version-negotiation packet"));
            }
            if version != QUIC_VERSION as u64 {
                return Ok(());
            }
            let kind: u8 = (first / 16) % 4;
            if kind == 3 {
                return self.process_retry(data);
            }
            if data.len() < 6 || data[5] as usize != self.scid.len() || !matches_at(
                data,
                6,
                &self.scid,
            ) {
                return Ok(());
            }
            if kind == 1 {
                return Ok(());
            }
            let space = if kind == 0 {
                PnSpace::Initial
            } else {
                PnSpace::Handshake
            };
            return match long_pn_offset(data) {
                None => Err(protocol("malformed long header")),
                Some(at) => self.process_packet(data, space, at, true, now),
            };
        }
        if !matches_at(data, 1, &self.scid) {
            return Ok(());
        }
        let at: usize = 1 + self.scid.len();
        if data.len() <= at {
            return Ok(());
        }
        self.process_packet(data, PnSpace::Application, at, false, now)
    }

    /// Take a received datagram: its packets one after another, up to one that fails.
    pub fn process_inbound(&mut self, data: &[u8], now: u64) -> (r: Result<()>)
        requires
            old(self)@.wf(),
        ensures
            final(self)@ == old(self)@.on_inbound(data@, now).0,
            match old(self)@.on_inbound(data@, now).1 {
                Ok(_) => r is Ok,
                Err(f) => r is Err && r->Err_0@ == f,
            },
            final(self)@.wf(),
    {
        let mut at: usize = 0;
        proof {
            assert(data@.skip(0) =~= data@);
        }
        loop
            invariant
                at <= data@.len(),
                self@.wf(),
                self@.on_inbound(data@.skip(at as int), now) == old(self)@.on_inbound(data@, now),
            decreases data@.len() - at,
        {
            if self.closed.is_some() || at == data.len() {
                return Ok(());
            }
            let rest = slice_subrange(data, at, data.len());
            let n: usize = first_packet_len(rest);
            let packet = slice_subrange(rest, 0, n);
            proof {
                assert(rest@ =~= data@.skip(at as int));
                assert(packet@ =~= rest@.take(n as int));
                assert(rest@.skip(n as int) =~= data@.skip(at + n));
            }
            match self.process_one(packet, now) {
                Ok(_) => {},
                Err(e) => return Err(e),
            }
            if n >= rest.len() {
                return Ok(());
            }
            at = at + n;
        }
    }
}

/// Bytes of the first CRYPTO frame.
fn first_crypto_len(frames: &Vec<Outgoing>) -> (r: usize)
    ensures
        r == crypto_len(frames_view(frames@), 0),
{
    let ghost all = frames_view(frames@);
    let mut i: usize = 0;
    while i < frames.len()
        invariant
            i <= frames@.len(),
            all == frames_view(frames@),
            crypto_len(all, 0) == crypto_len(all, i as int),
        decreases frames@.len() - i,
    {
        proof {
            assert(all[i as int] == frames@[i as int]@);
        }
        if let Outgoing::Crypto { offset, data } = &frames[i] {
            return data.len();
        }
        i = i + 1;
    }
    0
}

impl ConnState {
    /// The header of the next packet of a space, its frames being `payload_len` bytes long.
    fn build_packet_header(&self, space: PnSpace, payload_len: usize) -> (r: Option<Vec<u8>>)
        requires
            self@.wf(),
        ensures
            match self@.next_header(space, payload_len as nat) {
                Some(h) => r is Some && r->Some_0@ == h,
                None => r is None,
            },
    {
        let pn: u64 = self.spaces[space.index()].next_pn;
        let length: u64 = (payload_len as u64).saturating_add(PN_LEN as u64 + TAG_LEN);
        match space {
            PnSpace::Initial => encode_long(
                true,
                &self.dcid,
                &self.scid,
                pn,
                PN_LEN,
                &self.retry_token,
                length,
            ),
            PnSpace::Handshake => {
                let none: Vec<u8> = Vec::new();
                proof {
                    assert(none@ =~= Seq::empty());
                }
                encode_long(false, &self.dcid, &self.scid, pn, PN_LEN, &none, length)
            },
            PnSpace::Application => encode_short(&self.dcid, pn, PN_LEN),
        }
    }

    /// The frames of the next packet of a space behind the padding that they need.
    fn pad(&self, space: PnSpace, payload: Vec<u8>, Ghost(frames): Ghost<Seq<OutgoingView>>) -> (r:
        Vec<u8>)
        requires
            self@.wf(),
            payload@ == payload_of(frames),
        ensures
            r@ == self@.padded(space, frames),
            r@.len() >= MIN_PAYLOAD,
    {
        let mut least: usize = MIN_PAYLOAD;
        if space == PnSpace::Initial {
            if let Some(header) = self.build_packet_header(space, MAX_UDP_PAYLOAD as usize) {
                let taken: u64 = (header.len() as u64).saturating_add(TAG_LEN);
                if taken < MAX_UDP_PAYLOAD && (MAX_UDP_PAYLOAD - taken) as usize > MIN_PAYLOAD {
                    least = (MAX_UDP_PAYLOAD - taken) as usize;
                }
            }
        }
        let ghost n = self@.least_payload(space);
        proof {
            assert(least == n);
        }
        if payload.len() >= least {
            proof {
                assert(payload@ =~= self@.padded(space, frames));
            }
            return payload;
        }
        let mut out = repeat(0, least - payload.len());
        extend(&mut out, &payload);
        proof {
            assert(out@ =~= self@.padded(space, frames));
        }
        out
    }

    /// Encode and protect one packet from `frames`. None, with nothing changed, where the
    /// packet cannot be produced. Only ack-eliciting packets use the congestion window and
    /// are kept for loss recovery. The receiver can read what is sent.
    #[verifier::rlimit(40)]
    pub fn send_one(
        &mut self,
        space: PnSpace,
        frames: Vec<Outgoing>,
        ack_eliciting: bool,
        max_datagram: u64,
        now: u64,
    ) -> (r: Option<Vec<u8>>)
        requires
            old(self)@.wf(),
        ensures
            final(self)@ == old(self)@.with_packet(
                space,
                frames_view(frames@),
                ack_eliciting,
                max_datagram,
                now,
            ).0,
            opt_bytes(r) == old(self)@.with_packet(
                space,
                frames_view(frames@),
                ack_eliciting,
                max_datagram,
                now,
            ).1,
            r is Some ==> old(self)@.readable(space, frames_view(frames@), r->Some_0@),
            final(self)@.wf(),
    {
        let ghost before = self@;
        let ghost all = frames_view(frames@);
        let i: usize = space.index();
        let ghost s = before.spaces[i as int];
        proof {
            assert(s.wf());
        }
        let payload = match encode_frames(&frames) {
            Some(p) => p,
            None => return None,
        };
        let payload = self.pad(space, payload, Ghost(all));
        let header = match self.build_packet_header(space, payload.len()) {
            Some(h) => h,
            None => return None,
        };
        proof {
            lemma_header_len(before, space, payload@.len());
        }
        let pn: u64 = self.spaces[i].next_pn;
        if pn == u64::MAX {
            return None;
        }
        let at: usize = header.len() - PN_LEN;
        let long = space != PnSpace::Application;
        let datagram = match &self.spaces[i].write_key {
            None => return None,
            Some(key) => {
                let sealed = seal(key, pn, &header, &payload);
                let mut datagram = header;
                extend(&mut datagram, &sealed);
                if datagram.len() as u64 > max_datagram {
                    return None;
                }
                let ghost plain = datagram@;
                proof {
                    lemma_first_bytes();
                }
                protect_header(key, datagram.as_mut_slice(), at, long);
                proof {
                    let n = header@.len() as int;
                    assert(plain.take(n) =~= header@);
                    assert(plain.skip(n) =~= sealed@);
                    assert(plain[0] == header@[0]);
                }
                datagram
            },
        };
        let size: usize = datagram.len();
        if long {
            let n: u64 = first_crypto_len(&frames) as u64;
            let left: u64 = self.spaces[i].crypto_written - self.spaces[i].crypto_sent;
            let step: u64 = if n < left {
                n
            } else {
                left
            };
            self.spaces[i].crypto_sent = self.spaces[i].crypto_sent + step;
        }
        self.spaces[i].next_pn = pn + 1;
        if ack_eliciting {
            self.recovery.on_sent(size, now);
            self.spaces[i].sent.push_back(
                SentPacket {
                    pn,
                    time: now,
                    size,
                    ack_eliciting: true,
                    in_flight: true,
                    frames,
                },
            );
        }
        proof {
            let next = before.with_packet(space, all, ack_eliciting, max_datagram, now).0;
            assert(self@.spaces[i as int].sent =~= next.spaces[i as int].sent);
            assert(self@.spaces[i as int] =~= next.spaces[i as int]);
            assert(self@.spaces =~= next.spaces);
            assert(self@ =~= next);
            assert forall|k: int| 0 <= k < 3 implies (#[trigger] self@.spaces[k]).wf() by {
                if k != i {
                    assert(before.spaces[k].wf());
                }
            }
        }
        Some(datagram)
    }
}

proof fn lemma_first_bytes()
    ensures
        plain_first_byte(0x41, false),
        plain_first_byte(0xc1, true),
        plain_first_byte(0xe1, true),
{
    assert(0x41u8 & 0x40 != 0 && 0x41u8 & 0x18 == 0) by (bit_vector);
    assert(0xc1u8 & 0x40 != 0 && 0xc1u8 & 0x0c == 0) by (bit_vector);
    assert(0xe1u8 & 0x40 != 0 && 0xe1u8 & 0x0c == 0) by (bit_vector);
}

proof fn lemma_header_len(c: ConnView, space: PnSpace, payload_len: nat)
    ensures
        c.next_header(space, payload_len) matches Some(h) ==> h.len() >= 3 && h[0] == match space {
            PnSpace::Initial => 0xc1u8,
            PnSpace::Handshake => 0xe1u8,
            PnSpace::Application => 0x41u8,
        },
{
    crate::wire::lemma_be_bytes_len(c.spaces[space.place()].next_pn as nat, 2);
}

impl ConnState {
    /// Frames for the limits that wait to be sent.
    fn take_limit_frames(&mut self, frames: &mut Vec<Outgoing>)
        ensures
            frames_view(final(frames)@) == frames_view(old(frames)@) + max_data_frames(
                old(self)@.pending_max_data,
            ) + max_stream_data_frames(old(self)@.pending_max_stream_data),
            final(self)@ == (ConnView {
                pending_max_data: Seq::empty(),
                pending_max_stream_data: Seq::empty(),
                ..old(self)@
            }),
    {
        let ghost first = frames_view(frames@);
        let ghost data = max_data_frames(self@.pending_max_data);
        let ghost streams = max_stream_data_frames(self@.pending_max_stream_data);
        let mut i: usize = 0;
        proof {
            assert(frames_view(frames@) =~= first + data.take(0));
        }
        while i < self.pending_max_data.len()
            invariant
                i <= self.pending_max_data@.len(),
                data == max_data_frames(self.pending_max_data@),
                frames_view(frames@) == first + data.take(i as int),
                self@ == old(self)@,
            decreases self.pending_max_data@.len() - i,
        {
            let ghost before = frames@;
            frames.push(Outgoing::MaxData(self.pending_max_data[i]));
            proof {
                assert(frames_view(frames@) =~= frames_view(before).push(data[i as int]));
                assert(frames_view(frames@) =~= first + data.take(i + 1));
            }
            i = i + 1;
        }
        proof {
            assert(data.take(i as int) =~= data);
            assert(frames_view(frames@) =~= first + data + streams.take(0));
        }
        let mut k: usize = 0;
        while k < self.pending_max_stream_data.len()
            invariant
                k <= self.pending_max_stream_data@.len(),
                streams == max_stream_data_frames(self.pending_max_stream_data@),
                frames_view(frames@) == first + data + streams.take(k as int),
                self@ == old(self)@,
            decreases self.pending_max_stream_data@.len() - k,
        {
            let ghost before = frames@;
            let (stream_id, max) = self.pending_max_stream_data[k];
            frames.push(Outgoing::MaxStreamData { stream_id, max });
            proof {
                assert(frames_view(frames@) =~= frames_view(before).push(streams[k as int]));
                assert(frames_view(frames@) =~= first + data + streams.take(k + 1));
            }
            k = k + 1;
        }
        self.pending_max_data = Vec::new();
        self.pending_max_stream_data = Vec::new();
        proof {
            assert(streams.take(k as int) =~= streams);
            assert(self@ =~= (ConnView {
                pending_max_data: Seq::empty(),
                pending_max_stream_data: Seq::empty(),
                ..old(self)@
            }));
        }
    }

    /// Flow-control and stream frames that fit in a packet; whether there is any.
    fn collect_stream_frames(&mut self, frames: &mut Vec<Outgoing>, max_datagram: u64) -> (r: bool)
        requires
            old(self)@.wf(),
        ensures
            (final(self)@, frames_view(final(frames)@), r) == old(self)@.collected(
                frames_view(old(frames)@),
                max_datagram,
            ),
            final(self)@.wf(),
    {
        let first: usize = frames.len();
        self.take_limit_frames(frames);
        let ghost c = self@;
        let ghost control = frames_view(frames@);
        let ghost whole = stream_frames(
            c.streams,
            c.limits,
            control,
            0,
            stream_room(max_datagram, control.len()),
        );
        let limits_len: u128 = frames.len() as u128 * CONTROL_LEN as u128;
        let room: u64 = max_datagram.saturating_sub(PACKET_OVERHEAD);
        let mut budget: u64 = if limits_len < room as u128 {
            room - limits_len as u64
        } else {
            0
        };
        let mut i: usize = 0;
        while i < self.streams.len() && budget >= STREAM_HEADER + MIN_STREAM_DATA
            invariant
                i <= self.streams@.len(),
                self@.wf(),
                self@ == (ConnView { streams: self@.streams, limits: self@.limits, ..c }),
                whole == stream_frames(
                    self@.streams,
                    self@.limits,
                    frames_view(frames@),
                    i as int,
                    budget,
                ),
            decreases self.streams@.len() - i,
        {
            let ghost before = self@;
            proof {
                assert(before.streams[i as int].1.wf());
                assert(before.streams[i as int] == (
                    self.streams@[i as int].0,
                    self.streams@[i as int].1@,
                ));
            }
            if self.streams[i].1.has_send_data() {
                let id: u64 = self.streams[i].0;
                let send_limit: u64 = self.streams[i].1.peer_limit();
                let credit: u64 = self.limits.peer_max_data.saturating_sub(self.limits.total_sent);
                let room: u64 = budget - STREAM_HEADER;
                let (frame, used) = self.streams[i].1.take_frame(id, send_limit, credit, room);
                let ghost next = before.streams[i as int].1.next_frame(
                    id,
                    send_limit,
                    credit,
                    room,
                );
                if let Some(f) = frame {
                    let ghost was = frames@;
                    let len: u64 = match &f {
                        Outgoing::Stream { stream_id, offset, data, fin } => data.len() as u64,
                        _ => 0,
                    };
                    proof {
                        assert(len == before.streams[i as int].1.frame_len(
                            send_limit,
                            credit,
                            room,
                        ));
                    }
                    self.limits.total_sent = self.limits.total_sent.saturating_add(used);
                    budget = room - len;
                    frames.push(f);
                    proof {
                        assert(frames_view(frames@) =~= frames_view(was).push(next.1->Some_0));
                        assert(self@.streams =~= before.streams.update(
                            i as int,
                            (id, next.0),
                        ));
                        assert(self@ =~= (ConnView {
                            streams: self@.streams,
                            limits: self@.limits,
                            ..c
                        }));
                    }
                } else {
                    proof {
                        assert(self@.streams =~= before.streams);
                        assert(self@ =~= before);
                    }
                }
            }
            i = i + 1;
        }
        proof {
            assert(whole == (self@.streams, self@.limits, frames_view(frames@)));
            assert(self@ =~= old(self)@.collected(frames_view(old(frames)@), max_datagram).0);
        }
        frames.len() > first
    }

    /// Bytes for CRYPTO data in the next packet of a space.
    fn crypto_room(&self, space: PnSpace, max_datagram: u64) -> (r: u64)
        requires
            self@.wf(),
            max_datagram <= MAX_UDP_PAYLOAD,
        ensures
            r == self@.crypto_room(space, max_datagram),
            r <= max_datagram,
    {
        let usual: u64 = max_datagram.saturating_sub(PACKET_OVERHEAD);
        match self.build_packet_header(space, MAX_UDP_PAYLOAD as usize) {
            None => usual,
            Some(header) => {
                let offset = varint(self.spaces[space.index()].crypto_sent);
                proof {
                    lemma_varint_round_trip(
                        self@.spaces[space.place()].crypto_sent,
                        Seq::empty(),
                    );
                }
                let used: u64 = (header.len() as u64).saturating_add(
                    TAG_LEN + CRYPTO_HEADER + offset.len() as u64,
                );
                let left: u64 = max_datagram.saturating_sub(used);
                if left < usual {
                    left
                } else {
                    usual
                }
            },
        }
    }

    /// The space that a PING goes out in.
    fn ping_space(&self) -> (r: PnSpace)
        requires
            self@.wf(),
        ensures
            r == self@.ping_space(),
    {
        proof {
            assert(self@.spaces[2] == self.spaces@[2]@ && self@.spaces[1] == self.spaces@[1]@);
        }
        if self.spaces[2].write_key.is_some() {
            PnSpace::Application
        } else if self.spaces[1].write_key.is_some() {
            PnSpace::Handshake
        } else {
            PnSpace::Initial
        }
    }

    /// The frames of the next packet of a space, and whether it asks for an
    /// acknowledgement.
    fn next_frames(&mut self, space: PnSpace, max_datagram: u64) -> (r: (Vec<Outgoing>, bool))
        requires
            old(self)@.wf(),
            max_datagram <= MAX_UDP_PAYLOAD,
        ensures
            (final(self)@, frames_view(r.0@), r.1) == old(self)@.next_frames(space, max_datagram),
            final(self)@.wf(),
    {
        let ghost before = self@;
        let i: usize = space.index();
        let mut frames: Vec<Outgoing> = Vec::new();
        let mut ack_eliciting = false;
        proof {
            assert(before.spaces[i as int].wf());
            assert(frames_view(frames@) =~= Seq::empty());
        }
        if space != PnSpace::Application {
            let room: u64 = self.crypto_room(space, max_datagram);
            if let Some(f) = self.spaces[i].crypto_frame(room as usize) {
                frames.push(f);
                ack_eliciting = true;
                proof {
                    assert(frames_view(frames@) =~= seq![f@]);
                }
            }
        } else if self.collect_stream_frames(&mut frames, max_datagram) {
            ack_eliciting = true;
        }
        let ghost c = self@;
        let ghost mid = frames_view(frames@);
        if self.ping_pending && space == self.ping_space() {
            frames.push(Outgoing::Ping);
            ack_eliciting = true;
            self.ping_pending = false;
            proof {
                assert(frames_view(frames@) =~= mid.push(OutgoingView::Ping));
                assert(self@ =~= (ConnView { ping_pending: false, ..c }));
            }
        }
        (frames, ack_eliciting)
    }
}

impl ConnState {
    /// One round of a space's packets; whether another one follows.
    fn send_round(
        &mut self,
        space: PnSpace,
        max_datagram: u64,
        out: &mut Vec<Vec<u8>>,
        now: u64,
    ) -> (r: bool)
        requires
            old(self)@.wf(),
            max_datagram <= MAX_UDP_PAYLOAD,
        ensures
            (final(self)@, lists_view(final(out)@), r) == old(self)@.round(
                space,
                max_datagram,
                lists_view(old(out)@),
                now,
            ),
            final(self)@.wf(),
            r ==> shrinks(
                final(self)@.datagram_tx.len(),
                old(self)@.datagram_tx.len(),
                final(out)@.len(),
                old(out)@.len(),
            ),
    {
        let ghost before = self@;
        let ghost first = lists_view(out@);
        if self.recovery.cwnd.saturating_sub(self.recovery.bytes_in_flight) < 40 {
            return false;
        }
        if space == PnSpace::Application && self.datagram_tx.len() > 0 {
            proof {
                assert(before.datagram_tx[0] == self.datagram_tx@[0]@);
            }
            if self.datagram_tx[0].len() as u64 <= max_datagram.saturating_sub(DATAGRAM_OVERHEAD) {
                if let Some(d) = self.datagram_tx.pop_front() {
                    let ghost c = ConnView { datagram_tx: before.datagram_tx.skip(1), ..before };
                    let mut frames: Vec<Outgoing> = Vec::new();
                    frames.push(Outgoing::Datagram(d));
                    proof {
                        assert(self@.datagram_tx =~= c.datagram_tx);
                        assert(self@ =~= c);
                        assert(frames_view(frames@) =~= seq![
                            OutgoingView::Datagram(before.datagram_tx[0]),
                        ]);
                    }
                    if let Some(p) = self.send_one(space, frames, false, max_datagram, now) {
                        let ghost was = out@;
                        out.push(p);
                        proof {
                            assert(lists_view(out@) =~= lists_view(was).push(p@));
                        }
                    }
                    return out.len() < MAX_BATCH;
                }
            }
        }
        let (frames, ack_eliciting) = self.next_frames(space, max_datagram);
        if frames.len() == 0 {
            proof {
                assert(frames_view(frames@).len() == 0);
            }
            return false;
        }
        proof {
            assert(frames_view(frames@).len() > 0);
        }
        match self.send_one(space, frames, ack_eliciting, max_datagram, now) {
            Some(p) => {
                let ghost was = out@;
                out.push(p);
                proof {
                    assert(lists_view(out@) =~= lists_view(was).push(p@));
                }
                out.len() < MAX_BATCH
            },
            None => false,
        }
    }

    /// The packets of one space.
    fn flush_space(&mut self, space: PnSpace, max_datagram: u64, out: &mut Vec<Vec<u8>>, now: u64)
        requires
            old(self)@.wf(),
            max_datagram <= MAX_UDP_PAYLOAD,
        ensures
            (final(self)@, lists_view(final(out)@)) == old(self)@.flushed(
                space,
                max_datagram,
                lists_view(old(out)@),
                now,
            ),
            final(self)@.wf(),
    {
        let ghost before = self@;
        let ghost whole = before.flushed(space, max_datagram, lists_view(out@), now);
        let i: usize = space.index();
        proof {
            assert(before.spaces[i as int].wf());
        }
        if self.spaces[i].write_key.is_none() {
            return;
        }
        if self.spaces[i].ack_pending {
            if let Some(ack) = self.spaces[i].build_ack() {
                self.spaces[i].ack_pending = false;
                let mut frames: Vec<Outgoing> = Vec::new();
                frames.push(ack);
                proof {
                    let c = before.with_space(
                        i as int,
                        SpaceView { ack_pending: false, ..before.spaces[i as int] },
                    );
                    assert(self@.spaces[i as int] =~= c.spaces[i as int]);
                    assert(self@.spaces =~= c.spaces);
                    assert(self@ =~= c);
                    assert(frames_view(frames@) =~= seq![ack@]);
                    assert forall|k: int| 0 <= k < 3 implies (#[trigger] self@.spaces[k]).wf() by {
                        if k != i {
                            assert(before.spaces[k].wf());
                        }
                    }
                }
                if let Some(p) = self.send_one(space, frames, false, max_datagram, now) {
                    let ghost was = out@;
                    out.push(p);
                    proof {
                        assert(lists_view(out@) =~= lists_view(was).push(p@));
                    }
                }
            }
        }
        proof {
            assert(whole == self@.rounds(space, max_datagram, lists_view(out@), now));
        }
        loop
            invariant_except_break
                whole == self@.rounds(space, max_datagram, lists_view(out@), now),
            invariant
                self@.wf(),
                max_datagram <= MAX_UDP_PAYLOAD,
            ensures
                self@.wf(),
                whole == (self@, lists_view(out@)),
            decreases self@.datagram_tx.len(), MAX_BATCH - out@.len(),
        {
            if !self.send_round(space, max_datagram, out, now) {
                break;
            }
        }
    }

    /// The largest datagram to send.
    fn max_datagram(&self) -> (r: u64)
        ensures
            r == self@.max_datagram(),
            r <= MAX_UDP_PAYLOAD,
    {
        let peer: u64 = match self.tls.peer_tp() {
            Some(tp) => if tp.max_udp_payload_size >= 1200 {
                tp.max_udp_payload_size
            } else {
                1200
            },
            None => 1200,
        };
        if peer < MAX_UDP_PAYLOAD {
            peer
        } else {
            MAX_UDP_PAYLOAD
        }
    }

    /// Every datagram that can be sent now.
    pub fn build_outbound(&mut self, now: u64) -> (r: Vec<Vec<u8>>)
        requires
            old(self)@.wf(),
        ensures
            (final(self)@, lists_view(r@)) == old(self)@.outbound(now),
            final(self)@.wf(),
    {
        let mut out: Vec<Vec<u8>> = Vec::new();
        proof {
            assert(lists_view(out@) =~= Seq::empty());
        }
        if self.closed.is_some() {
            return out;
        }
        let max: u64 = self.max_datagram();
        self.flush_space(PnSpace::Initial, max, &mut out, now);
        self.flush_space(PnSpace::Handshake, max, &mut out, now);
        self.flush_space(PnSpace::Application, max, &mut out, now);
        out
    }
}

impl ConnState {
    /// The first awaited packet of a space, or the number of sent ones where none is.
    fn find_awaited(&self, i: usize) -> (r: usize)
        requires
            self@.wf(),
            i < 3,
        ensures
            r == self@.awaited(i as int, 0),
            r <= self@.spaces[i as int].sent.len(),
    {
        let ghost v = self@;
        let mut k: usize = 0;
        while k < self.spaces[i].sent.len() && !(self.spaces[i].sent[k].ack_eliciting
            && self.spaces[i].sent[k].in_flight)
            invariant
                i < 3,
                self.spaces@.len() == 3,
                v == self@,
                k <= self.spaces@[i as int].sent@.len(),
                v.awaited(i as int, 0) == v.awaited(i as int, k as int),
            decreases self.spaces@[i as int].sent@.len() - k,
        {
            proof {
                assert(v.spaces[i as int].sent[k as int] == self.spaces@[i as int].sent@[k as int]@);
            }
            k = k + 1;
        }
        proof {
            if k < self.spaces@[i as int].sent@.len() {
                assert(v.spaces[i as int].sent[k as int] == self.spaces@[i as int].sent@[k as int]@);
            }
        }
        k
    }

    /// Give the oldest awaited packet of a space up, so that its frames are sent again;
    /// false where there is none.
    fn give_up(&mut self, space: PnSpace, now: u64) -> (r: bool)
        requires
            old(self)@.wf(),
        ensures
            r == old(self)@.has_awaited(space),
            r ==> final(self)@ == old(self)@.given_up(space, now),
            !r ==> final(self)@ == old(self)@,
            final(self)@.wf(),
    {
        let ghost before = self@;
        let i: usize = space.index();
        if self.spaces[i].write_key.is_none() {
            return false;
        }
        let k: usize = self.find_awaited(i);
        if k >= self.spaces[i].sent.len() {
            return false;
        }
        let ghost lost = before.spaces[i as int].sent[k as int].frames;
        let mut frames: Vec<Outgoing> = Vec::new();
        let mut n: usize = 0;
        proof {
            assert(before.spaces[i as int].sent[k as int] == self.spaces@[i as int].sent@[k as int]@);
            assert(frames_view(frames@) =~= lost.take(0));
        }
        while n < self.spaces[i].sent[k].frames.len()
            invariant
                i < 3,
                self.spaces@.len() == 3,
                self@ == before,
                k < self.spaces@[i as int].sent@.len(),
                n <= self.spaces@[i as int].sent@[k as int].frames@.len(),
                lost == frames_view(self.spaces@[i as int].sent@[k as int].frames@),
                frames_view(frames@) == lost.take(n as int),
            decreases self.spaces@[i as int].sent@[k as int].frames@.len() - n,
        {
            let ghost was = frames@;
            frames.push(self.spaces[i].sent[k].frames[n].copy());
            proof {
                assert(frames_view(frames@) =~= frames_view(was).push(lost[n as int]));
                assert(frames_view(frames@) =~= lost.take(n + 1));
            }
            n = n + 1;
        }
        proof {
            assert(lost.take(n as int) =~= lost);
        }
        let mut n: usize = 0;
        while n < frames.len()
            invariant
                n <= frames@.len(),
                frames_view(frames@) == lost,
                self@.wf(),
                self@ == before.after_lost(space, lost, n as int, now),
            decreases frames@.len() - n,
        {
            proof {
                assert(lost[n as int] == frames@[n as int]@);
            }
            self.on_lost_frame(space, &frames[n], now);
            n = n + 1;
        }
        proof {
            assert(lost.len() == frames@.len());
        }
        true
    }

    /// The probe timer fired: send the oldest awaited packet again.
    fn send_probe(&mut self, now: u64)
        requires
            old(self)@.wf(),
        ensures
            final(self)@ == old(self)@.probed(now),
            final(self)@.wf(),
    {
        if !self.give_up(PnSpace::Application, now) {
            if !self.give_up(PnSpace::Handshake, now) {
                self.give_up(PnSpace::Initial, now);
            }
        }
        let ghost c = self@;
        self.recovery.on_probe(now);
        self.ping_pending = true;
        proof {
            assert(self@ =~= (ConnView {
                recovery: c.recovery.probed(now),
                ping_pending: true,
                ..c
            }));
        }
    }

    /// Look at the timers.
    pub fn on_timer(&mut self, now: u64)
        requires
            old(self)@.wf(),
        ensures
            final(self)@ == old(self)@.after_timer(now),
            final(self)@.wf(),
    {
        let idle: u64 = now.saturating_sub(self.timers.last_recv);
        if !self.handshake_complete && idle > self.timers.handshake_timeout {
            self.closed = Some(QuicError::Timeout);
            proof {
                assert(self@ =~= old(self)@.after_timer(now));
            }
            return;
        }
        if self.handshake_complete && self.timers.keep_alive_interval.is_none() && idle
            > self.timers.idle_timeout {
            self.closed = Some(QuicError::IdleTimeout);
            proof {
                assert(self@ =~= old(self)@.after_timer(now));
            }
            return;
        }
        if self.handshake_complete {
            if let Some(interval) = self.timers.keep_alive_interval {
                if now >= self.timers.keep_alive_next {
                    self.ping_pending = true;
                    self.timers.keep_alive_next = now.saturating_add(interval);
                }
            }
        }
        proof {
            let t = old(self)@.timers;
            let kept = match t.keep_alive_interval {
                Some(interval) if old(self)@.handshake_complete && now >= t.keep_alive_next => ConnView {
                    ping_pending: true,
                    timers: Timers { keep_alive_next: capped(now + interval), ..t },
                    ..old(self)@
                },
                _ => old(self)@,
            };
            assert(self@ =~= kept);
        }
        if let Some(due) = self.recovery.pto_due {
            if now >= due {
                self.send_probe(now);
            }
        }
    }

    /// A datagram arrived.
    pub fn received_at(&mut self, now: u64)
        requires
            old(self)@.wf(),
        ensures
            final(self)@ == (ConnView {
                timers: Timers { last_recv: now, ..old(self)@.timers },
                ..old(self)@
            }),
            final(self)@.wf(),
    {
        self.timers.last_recv = now;
        proof {
            assert(self@ =~= (ConnView {
                timers: Timers { last_recv: now, ..old(self)@.timers },
                ..old(self)@
            }));
        }
    }

    /// Close the connection for a fault, unless it is closed.
    pub fn process_fatal(&mut self, e: QuicError)
        requires
            old(self)@.wf(),
        ensures
            final(self)@ == old(self)@.closed_with(e@),
            final(self)@.wf(),
    {
        if self.closed.is_none() {
            self.closed = Some(e);
        }
        proof {
            assert(self@ =~= old(self)@.closed_with(e@));
        }
    }

    /// Close the connection, for a reason or of this side's own will.
    pub fn close(&mut self, e: Option<QuicError>)
        requires
            old(self)@.wf(),
        ensures
            final(self)@ == old(self)@.closed_with(
                match e {
                    Some(e) => e@,
                    None => QuicFault::Closed,
                },
            ),
            final(self)@.wf(),
    {
        match e {
            Some(e) => self.process_fatal(e),
            None => self.process_fatal(QuicError::Closed),
        }
    }

    /// Why the connection is closed, if it is.
    pub fn closed(&self) -> (r: Option<QuicError>)
        ensures
            opt_fault(r) == self@.closed,
    {
        match &self.closed {
            Some(e) => Some(e.copy()),
            None => None,
        }
    }

    /// Whether the handshake is over.
    pub fn handshake_complete(&self) -> (r: bool)
        ensures
            r == self@.handshake_complete,
    {
        self.handshake_complete
    }

    /// The smoothed round-trip time.
    pub fn smoothed_rtt(&self) -> (r: u64)
        ensures
            r == self@.recovery.smoothed_rtt,
    {
        self.recovery.smoothed_rtt
    }

    /// Whether another stream may be opened.
    pub fn can_open(&self, uni: bool) -> (r: bool)
        ensures
            r == self@.may_open(uni),
    {
        if uni {
            self.limits.next_uni / 4 < self.limits.peer_uni_limit && self.limits.next_uni
                <= u64::MAX - 4
        } else {
            self.limits.next_bidi / 4 < self.limits.peer_bidi_limit && self.limits.next_bidi
                <= u64::MAX - 4
        }
    }

    /// Open a stream; its identifier.
    fn open_stream(&mut self, uni: bool) -> (r: Result<u64>)
        requires
            old(self)@.wf(),
        ensures
            match old(self)@.closed {
                Some(f) => r is Err && r->Err_0@ == f && final(self)@ == old(self)@,
                None => if old(self)@.may_open(uni) {
                    r is Ok && r->Ok_0 == old(self)@.next_stream(uni).0 && final(self)@ == old(self)@.opened_stream(uni)
                } else {
                    r is Err && r->Err_0@ == QuicFault::StreamLimit && final(self)@ == old(self)@
                },
            },
            final(self)@.wf(),
    {
        let ghost before = self@;
        if let Some(e) = &self.closed {
            return Err(e.copy());
        }
        if !self.can_open(uni) {
            return Err(QuicError::StreamLimit);
        }
        let (id, peer_limit, window): (u64, u64, u64) = if uni {
            (self.limits.next_uni, self.limits.peer_max_stream_data_uni, 0)
        } else {
            (
                self.limits.next_bidi,
                self.limits.peer_max_stream_data_bidi,
                self.limits.my_max_stream_data_bidi_local,
            )
        };
        if uni {
            self.limits.next_uni = id + 4;
        } else {
            self.limits.next_bidi = id + 4;
        }
        let i: usize = self.find_stream(id);
        let s = StreamState::new(peer_limit, window);
        proof {
            lemma_stream_from(before.streams, id, 0);
        }
        if i < self.streams.len() {
            self.streams.set(i, (id, s));
        } else {
            self.streams.push((id, s));
        }
        proof {
            let next = before.opened_stream(uni);
            assert(self@.streams =~= next.streams);
            assert(self@ =~= next);
            assert forall|a: int, b: int| 0 <= a < b < self@.streams.len() implies (
            #[trigger] self@.streams[a]).0 != (#[trigger] self@.streams[b]).0 by {
                if i < before.streams.len() {
                    assert(self@.streams[a].0 == before.streams[a].0);
                    assert(self@.streams[b].0 == before.streams[b].0);
                } else if b < before.streams.len() {
                    assert(self@.streams[a] == before.streams[a]);
                    assert(self@.streams[b] == before.streams[b]);
                } else {
                    assert(self@.streams[a] == before.streams[a]);
                }
            }
            assert forall|k: int| 0 <= k < self@.streams.len() implies (
            #[trigger] self@.streams[k]).1.wf() by {
                if k != i {
                    assert(self@.streams[k] == before.streams[k]);
                }
            }
        }
        Ok(id)
    }

    /// Open a bidirectional stream; its identifier.
    pub fn open_bi(&mut self) -> (r: Result<u64>)
        requires
            old(self)@.wf(),
        ensures
            match old(self)@.closed {
                Some(f) => r is Err && r->Err_0@ == f && final(self)@ == old(self)@,
                None => if old(self)@.may_open(false) {
                    r is Ok && r->Ok_0 == old(self)@.next_stream(false).0 && final(self)@ == old(self)@.opened_stream(false)
                } else {
                    r is Err && r->Err_0@ == QuicFault::StreamLimit && final(self)@ == old(self)@
                },
            },
            final(self)@.wf(),
    {
        self.open_stream(false)
    }

    /// Open a unidirectional stream; its identifier.
    pub fn open_uni(&mut self) -> (r: Result<u64>)
        requires
            old(self)@.wf(),
        ensures
            match old(self)@.closed {
                Some(f) => r is Err && r->Err_0@ == f && final(self)@ == old(self)@,
                None => if old(self)@.may_open(true) {
                    r is Ok && r->Ok_0 == old(self)@.next_stream(true).0 && final(self)@ == old(self)@.opened_stream(true)
                } else {
                    r is Err && r->Err_0@ == QuicFault::StreamLimit && final(self)@ == old(self)@
                },
            },
            final(self)@.wf(),
    {
        self.open_stream(true)
    }

    /// A stream that the server opened in one direction and that can be read.
    pub fn accept_uni_ready(&self) -> (r: Option<u64>)
        ensures
            match r {
                Some(id) => self@.readable_from(0) < self@.streams.len() && id
                    == self@.streams[self@.readable_from(0)].0,
                None => self@.readable_from(0) == self@.streams.len(),
            },
    {
        let ghost v = self@;
        let mut i: usize = 0;
        while i < self.streams.len()
            invariant
                i <= self.streams@.len(),
                v == self@,
                v.readable_from(0) == v.readable_from(i as int),
            decreases self.streams@.len() - i,
        {
            proof {
                assert(v.streams[i as int] == (self.streams@[i as int].0, self.streams@[i as int].1@));
            }
            if self.streams[i].0 % 4 == 3 && self.streams[i].1.is_readable() {
                return Some(self.streams[i].0);
            }
            i = i + 1;
        }
        None
    }

    /// Take as much of `data` for a stream as may be buffered; how much was taken.
    pub fn send_data(&mut self, stream_id: u64, data: &[u8]) -> (r: Result<usize>)
        requires
            old(self)@.wf(),
        ensures
            ({
                let c = old(self)@;
                let i = c.stream(stream_id);
                if c.closed is Some {
                    r is Err && r->Err_0@ == c.closed->0 && final(self)@ == c
                } else if i >= c.streams.len() {
                    r is Err && r->Err_0@ == QuicFault::Protocol("unknown stream"@) && final(self)@ == c
                } else {
                    match c.streams[i].1.written(data@) {
                        Ok((s, n)) => r is Ok && r->Ok_0 == n && final(self)@ == c.with_stream(
                            i,
                            s,
                        ),
                        Err(f) => r is Err && r->Err_0@ == f && final(self)@ == c,
                    }
                }
            }),
            final(self)@.wf(),
    {
        let ghost before = self@;
        if let Some(e) = &self.closed {
            return Err(e.copy());
        }
        let i: usize = self.find_stream(stream_id);
        if i >= self.streams.len() {
            return Err(protocol("unknown stream"));
        }
        proof {
            assert(before.streams[i as int].1.wf());
        }
        let r = self.streams[i].1.write(data);
        proof {
            match before.streams[i as int].1.written(data@) {
                Ok((s, n)) => {
                    assert(self@.streams =~= before.with_stream(i as int, s).streams);
                    assert(self@ =~= before.with_stream(i as int, s));
                },
                Err(f) => {
                    assert(self@.streams =~= before.streams);
                    assert(self@ =~= before);
                },
            }
        }
        r
    }

    /// Bytes of a stream that are written and not acknowledged.
    pub fn send_buffered(&self, stream_id: u64) -> (r: u64)
        requires
            self@.wf(),
        ensures
            ({
                let i = self@.stream(stream_id);
                if i < self@.streams.len() {
                    r == self@.streams[i].1.write_pos - self@.streams[i].1.ack_pos
                } else {
                    r == 0
                }
            }),
    {
        let i: usize = self.find_stream(stream_id);
        if i < self.streams.len() {
            proof {
                assert(self@.streams[i as int].1.wf());
            }
            self.streams[i].1.send_buffered()
        } else {
            0
        }
    }

    /// Queue the end of a stream.
    pub fn fin_stream(&mut self, stream_id: u64) -> (r: Result<()>)
        requires
            old(self)@.wf(),
        ensures
            ({
                let c = old(self)@;
                let i = c.stream(stream_id);
                if c.closed is Some {
                    r is Err && r->Err_0@ == c.closed->0 && final(self)@ == c
                } else if i >= c.streams.len() {
                    r is Err && r->Err_0@ == QuicFault::Protocol("unknown stream"@) && final(self)@ == c
                } else {
                    r is Ok && final(self)@ == c.with_stream(
                        i,
                        StreamView { fin_queued: true, ..c.streams[i].1 },
                    )
                }
            }),
            final(self)@.wf(),
    {
        let ghost before = self@;
        if let Some(e) = &self.closed {
            return Err(e.copy());
        }
        let i: usize = self.find_stream(stream_id);
        if i >= self.streams.len() {
            return Err(protocol("unknown stream"));
        }
        proof {
            assert(before.streams[i as int].1.wf());
        }
        self.streams[i].1.finish();
        proof {
            let next = before.with_stream(
                i as int,
                StreamView { fin_queued: true, ..before.streams[i as int].1 },
            );
            assert(self@.streams =~= next.streams);
            assert(self@ =~= next);
        }
        Ok(())
    }

    /// Read at most `limit` bytes of a stream. An unknown one is at its end.
    pub fn recv_into(&mut self, stream_id: u64, limit: usize) -> (r: RecvOutcome)
        requires
            old(self)@.wf(),
        ensures
            ({
                let c = old(self)@;
                let i = c.stream(stream_id);
                if i >= c.streams.len() {
                    r@ == OutcomeView::Eof && final(self)@ == c
                } else {
                    let (s, outcome) = c.streams[i].1.read(limit as nat);
                    r@ == outcome && final(self)@ == if outcome is Data {
                        c.with_stream(i, s).credited(i)
                    } else {
                        c
                    }
                }
            }),
            final(self)@.wf(),
    {
        let ghost before = self@;
        let i: usize = self.find_stream(stream_id);
        if i >= self.streams.len() {
            return RecvOutcome::Eof;
        }
        proof {
            assert(before.streams[i as int].1.wf());
        }
        let r = self.streams[i].1.read(limit);
        proof {
            let next = before.with_stream(i as int, before.streams[i as int].1.read(limit as nat).0);
            assert(self@.streams =~= next.streams);
            assert(self@ =~= next);
            if !(r@ is Data) {
                assert(next.streams =~= before.streams);
                assert(next =~= before);
            }
        }
        match r {
            RecvOutcome::Data(data) => {
                self.bump_recv_credit(i);
                RecvOutcome::Data(data)
            },
            other => other,
        }
    }

    /// Queue a datagram. One that would not fit a packet is refused, so that an accepted
    /// one is never dropped for its size.
    pub fn send_datagram(&mut self, data: Vec<u8>) -> (r: Result<()>)
        requires
            old(self)@.wf(),
        ensures
            match old(self)@.closed {
                Some(f) => r is Err && r->Err_0@ == f && final(self)@ == old(self)@,
                None => if data@.len() > minus(old(self)@.max_datagram(), DATAGRAM_OVERHEAD) {
                    r is Err && r->Err_0@ == QuicFault::DatagramTooLarge && final(self)@ == old(self)@
                } else {
                    r is Ok && final(self)@ == (ConnView {
                        datagram_tx: old(self)@.datagram_tx.push(data@),
                        ..old(self)@
                    })
                },
            },
            final(self)@.wf(),
    {
        if let Some(e) = &self.closed {
            return Err(e.copy());
        }
        let max: u64 = self.max_datagram();
        if data.len() as u64 > max.saturating_sub(DATAGRAM_OVERHEAD) {
            return Err(QuicError::DatagramTooLarge);
        }
        self.datagram_tx.push_back(data);
        proof {
            let next = ConnView {
                datagram_tx: old(self)@.datagram_tx.push(data@),
                ..old(self)@
            };
            assert(self@.datagram_tx =~= next.datagram_tx);
            assert(self@ =~= next);
        }
        Ok(())
    }

    /// The next received datagram.
    pub fn pop_datagram(&mut self) -> (r: Option<Vec<u8>>)
        requires
            old(self)@.wf(),
        ensures
            old(self)@.datagram_rx.len() == 0 ==> r is None && final(self)@ == old(self)@,
            old(self)@.datagram_rx.len() > 0 ==> r is Some && r->Some_0@ == old(self)@.datagram_rx[0] && final(self)@ == (ConnView {
                datagram_rx: old(self)@.datagram_rx.skip(1),
                ..old(self)@
            }),
            final(self)@.wf(),
    {
        let ghost before = self@;
        let r = self.datagram_rx.pop_front();
        proof {
            if r is Some {
                assert(before.datagram_rx[0] == r->Some_0@);
                assert(self@.datagram_rx =~= before.datagram_rx.skip(1));
                assert(self@ =~= (ConnView {
                    datagram_rx: before.datagram_rx.skip(1),
                    ..before
                }));
            } else {
                assert(before.datagram_rx.len() == 0);
                assert(self@ =~= before);
            }
        }
        r
    }
}

/// The transport parameters that a configuration advertises.
pub open spec fn advertised(config: ClientConfig) -> ParamsView {
    ParamsView {
        initial_max_data: config.initial_max_data,
        initial_max_stream_data_bidi_local: config.initial_max_stream_data,
        initial_max_stream_data_bidi_remote: config.initial_max_stream_data,
        initial_max_stream_data_uni: config.initial_max_stream_data,
        initial_max_streams_bidi: config.max_concurrent_bidi_streams,
        initial_max_streams_uni: config.max_concurrent_uni_streams,
        max_udp_payload_size: config.max_udp_payload_size,
        ack_delay_exponent: 3,
        max_ack_delay: 25,
        initial_source_connection_id: Seq::empty(),
        disable_active_migration: false,
    }
}

/// A connection that has sent nothing, with its opening message queued.
pub open spec fn started(
    config: ClientConfig,
    tls: HandshakeView,
    scid: Seq<u8>,
    dcid: Seq<u8>,
    now: u64,
) -> ConnView {
    let initial = (SpaceView {
        key: Some(PacketKeyView::Initial(dcid, true)),
        write_key: Some(PacketKeyView::Initial(dcid, false)),
        ..SpaceView::unused()
    }).queued(tls.client_hello);
    ConnView {
        tls: HandshakeView { pending: Seq::empty(), ..tls },
        scid,
        dcid,
        retry_token: Seq::empty(),
        spaces: seq![initial, SpaceView::unused(), SpaceView::unused()],
        streams: Seq::empty(),
        limits: Limits {
            next_bidi: 0,
            next_uni: 2,
            peer_bidi_limit: 0,
            peer_uni_limit: 0,
            peer_max_data: 0,
            peer_max_stream_data_bidi: 0,
            peer_max_stream_data_uni: 0,
            total_sent: 0,
            my_max_stream_data_bidi_local: config.initial_max_stream_data,
            my_max_stream_data_bidi_remote: config.initial_max_stream_data,
            my_max_stream_data_uni: config.initial_max_stream_data,
            max_data_advertised: config.initial_max_data,
            total_recv: 0,
        },
        pending_max_data: Seq::empty(),
        pending_max_stream_data: Seq::empty(),
        datagram_tx: Seq::empty(),
        datagram_rx: Seq::empty(),
        handshake_complete: false,
        handshake_confirmed: false,
        ping_pending: false,
        closed: None,
        timers: Timers {
            handshake_timeout: config.handshake_timeout,
            idle_timeout: config.idle_timeout,
            keep_alive_interval: config.keep_alive_interval,
            last_recv: now,
            keep_alive_next: capped(now + 60_000_000_000),
        },
        recovery: Recovery::initial(),
    }
}

impl ConnState {
    /// A connection with an opened handshake and given connection identifiers.
    pub fn with_ids(
        config: &ClientConfig,
        tls: Tls13Client,
        scid: Vec<u8>,
        dcid: Vec<u8>,
        now: u64,
    ) -> (r: Self)
        requires
            tls@.wf(),
            scid@.len() <= 20,
            1 <= dcid@.len() <= 20,
        ensures
            r@ == started(*config, tls@, scid@, dcid@, now),
            r@.wf(),
    {
        let mut initial = Space::new();
        initial.key = Some(PacketKey::Initial { dcid: dcid.clone(), server: true });
        initial.write_key = Some(PacketKey::Initial { dcid: dcid.clone(), server: false });
        proof {
            assert(initial@ =~= (SpaceView {
                key: Some(PacketKeyView::Initial(dcid@, true)),
                write_key: Some(PacketKeyView::Initial(dcid@, false)),
                ..SpaceView::unused()
            }));
        }
        initial.queue_crypto(tls.client_hello());
        let mut handshake = tls;
        handshake.take_crypto_pending();
        let mut spaces: Vec<Space> = Vec::new();
        spaces.push(initial);
        spaces.push(Space::new());
        spaces.push(Space::new());
        let r = ConnState {
            tls: handshake,
            scid,
            dcid,
            retry_token: Vec::new(),
            spaces,
            streams: Vec::new(),
            limits: Limits {
                next_bidi: 0,
                next_uni: 2,
                peer_bidi_limit: 0,
                peer_uni_limit: 0,
                peer_max_data: 0,
                peer_max_stream_data_bidi: 0,
                peer_max_stream_data_uni: 0,
                total_sent: 0,
                my_max_stream_data_bidi_local: config.initial_max_stream_data,
                my_max_stream_data_bidi_remote: config.initial_max_stream_data,
                my_max_stream_data_uni: config.initial_max_stream_data,
                max_data_advertised: config.initial_max_data,
                total_recv: 0,
            },
            pending_max_data: Vec::new(),
            pending_max_stream_data: Vec::new(),
            datagram_tx: VecDeque::new(),
            datagram_rx: VecDeque::new(),
            handshake_complete: false,
            handshake_confirmed: false,
            ping_pending: false,
            closed: None,
            timers: Timers {
                handshake_timeout: config.handshake_timeout,
                idle_timeout: config.idle_timeout,
                keep_alive_interval: config.keep_alive_interval,
                last_recv: now,
                keep_alive_next: now.saturating_add(60_000_000_000),
            },
            recovery: Recovery::new(),
        };
        proof {
            let v = started(*config, tls@, scid@, dcid@, now);
            assert(r@.spaces =~= v.spaces);
            assert(r@ =~= v);
        }
        r
    }

    /// Start a connection: fresh connection identifiers, a fresh key share, and the
    /// `ClientHello` queued. `unix_now` is in seconds since the epoch.
    pub fn start(config: &ClientConfig, roots: RootStore, unix_now: i64, now: u64) -> (r: Self)
        ensures
            exists|ids: Seq<u8>, keys: Seq<u8>|
                r@ == started(
                    *config,
                    opened(
                        config.server_name@,
                        strings_view(config.alpn@),
                        config.skip_cert_verify,
                        root_certs(roots),
                        unix_now,
                        client_params(
                            advertised(*config),
                            (#[trigger] seeded_pair(ids)).0.take(8),
                        ),
                        (#[trigger] seeded_pair(keys)).0,
                        seeded_pair(keys).1,
                    ),
                    seeded_pair(ids).0.take(8),
                    seeded_pair(ids).1.take(8),
                    now,
                ),
            r@.wf(),
    {
        let mut seed = repeat(0, 64);
        fill_random(seed.as_mut_slice());
        let seed = seed_from(&seed);
        let (first, second) = draw_pair(&seed);
        let scid = copy_range(&first, 0, 8);
        let dcid = copy_range(&second, 0, 8);
        proof {
            let pair = seeded_pair(seed@);
            assert(scid@ =~= pair.0.take(8));
            assert(dcid@ =~= pair.1.take(8));
        }
        let tp = TransportParameters {
            initial_max_data: config.initial_max_data,
            initial_max_stream_data_bidi_local: config.initial_max_stream_data,
            initial_max_stream_data_bidi_remote: config.initial_max_stream_data,
            initial_max_stream_data_uni: config.initial_max_stream_data,
            initial_max_streams_bidi: config.max_concurrent_bidi_streams,
            initial_max_streams_uni: config.max_concurrent_uni_streams,
            max_udp_payload_size: config.max_udp_payload_size,
            ack_delay_exponent: 3,
            max_ack_delay: 25,
            initial_source_connection_id: Vec::new(),
            disable_active_migration: false,
        };
        proof {
            assert(tp@ =~= advertised(*config));
        }
        let tls = Tls13Client::new(
            owned(config.server_name.as_str()),
            &config.alpn,
            config.skip_cert_verify,
            roots,
            unix_now,
            &tp,
            &scid,
        );
        let r = ConnState::with_ids(config, tls, scid, dcid, now);
        proof {
            let keys = choose|keys: Seq<u8>|
                tls@ == opened(
                    config.server_name@,
                    strings_view(config.alpn@),
                    config.skip_cert_verify,
                    root_certs(roots),
                    unix_now,
                    client_params(tp@, scid@),
                    (#[trigger] seeded_pair(keys)).0,
                    seeded_pair(keys).1,
                );
            let (a, b) = (seeded_pair(seed@), seeded_pair(keys));
        }
        r
    }
}

// ---------------------------------------------------------------------------
// Driving
// ---------------------------------------------------------------------------

/// The datagram inside a received one, where obfuscation is in use.
pub open spec fn bare(raw: Seq<u8>, obfs: Option<Arc<Salamander>>) -> Option<Seq<u8>> {
    match obfs {
        Some(o) => salamander_unwrapped(o@, raw),
        None => Some(raw),
    }
}

impl ConnView {
    /// After a datagram from the socket: the connection and what to send. One that cannot
    /// be unwrapped is discarded; one that breaks the protocol closes the connection.
    pub open spec fn driven(self, raw: Seq<u8>, obfs: Option<Arc<Salamander>>, now: u64) -> (
        ConnView,
        Seq<Seq<u8>>,
    ) {
        let c = ConnView { timers: Timers { last_recv: now, ..self.timers }, ..self };
        match bare(raw, obfs) {
            None => c.outbound(now),
            Some(data) => {
                let (next, r) = c.on_inbound(data, now);
                match r {
                    Ok(_) => next.outbound(now),
                    Err(f) => (next.closed_with(f), Seq::empty()),
                }
            },
        }
    }
}

impl ConnState {
    /// Take a datagram from the socket; the datagrams to send.
    pub fn on_datagram(&mut self, raw: &[u8], obfs: &Option<Arc<Salamander>>, now: u64) -> (r: Vec<
        Vec<u8>,
    >)
        requires
            old(self)@.wf(),
        ensures
            (final(self)@, lists_view(r@)) == old(self)@.driven(raw@, *obfs, now),
            final(self)@.wf(),
    {
        self.received_at(now);
        let processed = match obfs {
            Some(o) => match o.deobfuscate_packet(raw) {
                Some(plain) => self.process_inbound(&plain, now),
                None => Ok(()),
            },
            None => self.process_inbound(raw, now),
        };
        match processed {
            Ok(_) => self.build_outbound(now),
            Err(e) => {
                self.process_fatal(e);
                let none: Vec<Vec<u8>> = Vec::new();
                proof {
                    assert(lists_view(none@) =~= Seq::empty());
                }
                none
            },
        }
    }

    /// Nothing arrived for a while; the datagrams to send.
    pub fn on_quiet(&mut self, now: u64) -> (r: Vec<Vec<u8>>)
        requires
            old(self)@.wf(),
        ensures
            (final(self)@, lists_view(r@)) == old(self)@.after_timer(now).outbound(now),
            final(self)@.wf(),
    {
        self.on_timer(now);
        self.build_outbound(now)
    }
}

// ---------------------------------------------------------------------------
// Laws
// ---------------------------------------------------------------------------

/// A datagram that [`ConnState::send_datagram`] accepts fits a packet: its frame, the
/// longest short header and the tag are within the largest datagram.
pub proof fn lemma_accepted_datagram_fits(c: ConnView, data: Seq<u8>)
    requires
        c.wf(),
        data.len() <= minus(c.max_datagram(), DATAGRAM_OVERHEAD),
        c.dcid.len() <= 20,
    ensures
        ({
            let payload = c.padded(PnSpace::Application, seq![OutgoingView::Datagram(data)]);
            &&& c.next_header(PnSpace::Application, payload.len()) is Some
            &&& c.next_header(PnSpace::Application, payload.len())->0.len() + payload.len() + TAG_LEN
                <= c.max_datagram()
        }),
        all_encodable(seq![OutgoingView::Datagram(data)]),
{
    let frames = seq![OutgoingView::Datagram(data)];
    reveal_with_fuel(payload_of, 2);
    assert(frames.drop_last() =~= Seq::empty());
    assert(frames.last() == OutgoingView::Datagram(data));
    crate::wire::lemma_be_bytes_len(c.spaces[2].next_pn as nat, 2);
}

/// The connection's credit is respected: however many stream frames are built, no more
/// bytes are sent for the first time than the peer allows.
pub proof fn lemma_connection_credit(
    streams: Seq<(u64, StreamView)>,
    limits: Limits,
    frames: Seq<OutgoingView>,
    i: int,
    budget: u64,
)
    requires
        0 <= i,
        forall|k: int| 0 <= k < streams.len() ==> (#[trigger] streams[k]).1.wf(),
        limits.total_sent <= limits.peer_max_data,
    ensures
        stream_frames(streams, limits, frames, i, budget).1.total_sent <= limits.peer_max_data,
    decreases streams.len() - i,
{
    if i < streams.len() && budget >= STREAM_HEADER + MIN_STREAM_DATA {
        if !streams[i].1.has_send_data() {
            lemma_connection_credit(streams, limits, frames, i + 1, budget);
        } else {
            let id = streams[i].0;
            let send_limit = streams[i].1.peer_limit;
            let credit = minus(limits.peer_max_data, limits.total_sent);
            let room = (budget - STREAM_HEADER) as u64;
            let (next, frame, used) = streams[i].1.next_frame(id, send_limit, credit, room);
            lemma_credit_used_once(streams[i].1, id, send_limit, credit, room);
            match frame {
                None => lemma_connection_credit(streams, limits, frames, i + 1, budget),
                Some(f) => {
                    let updated = streams.update(i, (id, next));
                    assert forall|k: int| 0 <= k < updated.len() implies (
                    #[trigger] updated[k]).1.wf() by {
                        if k != i {
                            assert(updated[k] == streams[k]);
                        } else {
                            assert(streams[i].1.wf());
                        }
                    }
                    lemma_connection_credit(
                        updated,
                        Limits { total_sent: capped(limits.total_sent + used), ..limits },
                        frames.push(f),
                        i + 1,
                        (room - streams[i].1.frame_len(send_limit, credit, room)) as u64,
                    );
                },
            }
        }
    }
}

/// The opening message goes out in the Initial space alone, and once: nothing of it waits for
/// another space.
pub proof fn lemma_hello_in_initial_space(
    config: ClientConfig,
    tls: HandshakeView,
    scid: Seq<u8>,
    dcid: Seq<u8>,
    now: u64,
)
    requires
        tls.client_hello.len() <= u64::MAX,
    ensures
        ({
            let c = started(config, tls, scid, dcid, now);
            &&& c.spaces[0].crypto_send == tls.client_hello
            &&& c.spaces[1].crypto_send.len() == 0
            &&& c.spaces[2].crypto_send.len() == 0
            &&& c.tls.pending.len() == 0
        }),
{
    let n = tls.client_hello.len() as int;
    assert(Seq::<u8>::empty() + tls.client_hello.take(n) =~= tls.client_hello);
}

/// An Initial packet fills its datagram, whatever it carries, where the token leaves room.
pub proof fn lemma_initial_fills_datagram(c: ConnView, frames: Seq<OutgoingView>)
    requires
        c.wf(),
        c.dcid.len() <= 20,
        c.scid.len() <= 20,
        c.retry_token.len() <= 1000,
    ensures
        ({
            let payload = c.padded(PnSpace::Initial, frames);
            &&& c.next_header(PnSpace::Initial, payload.len()) is Some || payload.len()
                > MAX_UDP_PAYLOAD
            &&& payload.len() > payload_of(frames).len() ==> c.next_header(
                PnSpace::Initial,
                payload.len(),
            )->0.len() + payload.len() + TAG_LEN == MAX_UDP_PAYLOAD
        }),
{
    let payload = c.padded(PnSpace::Initial, frames);
    let full = c.next_header(PnSpace::Initial, MAX_UDP_PAYLOAD as nat)->0;
    let pn = c.spaces[0].next_pn as nat;
    crate::wire::lemma_be_bytes_len(pn, 2);
    crate::wire::lemma_be_bytes_len(1, 4);
    lemma_varint_round_trip(c.retry_token.len() as u64, Seq::empty());
    let whole = (MAX_UDP_PAYLOAD + PN_LEN + TAG_LEN) as u64;
    crate::wire::lemma_be_bytes_len((0x4000 + whole) as nat, 2);
    assert(varint_bytes(whole).len() == 2);
    assert(full.len() <= 1 + 4 + 1 + 20 + 1 + 20 + 8 + 1000 + 2 + 2);
    if payload.len() > payload_of(frames).len() {
        let length = (payload.len() + PN_LEN + TAG_LEN) as u64;
        assert(0x40 <= length < 0x4000);
        crate::wire::lemma_be_bytes_len((0x4000 + length) as nat, 2);
        assert(varint_bytes(length).len() == 2);
    }
}

proof fn lemma_stream_frames_fit(
    streams: Seq<(u64, StreamView)>,
    limits: Limits,
    frames: Seq<OutgoingView>,
    i: int,
    budget: u64,
)
    requires
        0 <= i,
        budget < 0x4000,
        forall|k: int| 0 <= k < streams.len() ==> (#[trigger] streams[k]).1.wf(),
    ensures
        payload_of(stream_frames(streams, limits, frames, i, budget).2).len() <= payload_of(
            frames,
        ).len() + budget,
    decreases streams.len() - i,
{
    if i < streams.len() && budget >= STREAM_HEADER + MIN_STREAM_DATA {
        if !streams[i].1.has_send_data() {
            lemma_stream_frames_fit(streams, limits, frames, i + 1, budget);
        } else {
            let id = streams[i].0;
            let s = streams[i].1;
            assert(s.wf());
            let send_limit = s.peer_limit;
            let credit = minus(limits.peer_max_data, limits.total_sent);
            let room = (budget - STREAM_HEADER) as u64;
            let (next, frame, used) = s.next_frame(id, send_limit, credit, room);
            match frame {
                None => lemma_stream_frames_fit(streams, limits, frames, i + 1, budget),
                Some(f) => {
                    let n = s.frame_len(send_limit, credit, room);
                    let updated = streams.update(i, (id, next));
                    assert forall|k: int| 0 <= k < updated.len() implies (
                    #[trigger] updated[k]).1.wf() by {
                        if k != i {
                            assert(updated[k] == streams[k]);
                        }
                    }
                    lemma_varint_round_trip(id, Seq::empty());
                    lemma_varint_round_trip(s.sent_through, Seq::empty());
                    crate::wire::lemma_be_bytes_len(n as nat, 1);
                    crate::wire::lemma_be_bytes_len((0x4000 + n) as nat, 2);
                    assert(frame_bytes(f).len() <= STREAM_HEADER + n);
                    assert(frames.push(f).drop_last() =~= frames);
                    lemma_stream_frames_fit(
                        updated,
                        Limits { total_sent: capped(limits.total_sent + used), ..limits },
                        frames.push(f),
                        i + 1,
                        (room - n) as u64,
                    );
                },
            }
        }
    }
}

proof fn lemma_control_len(frames: Seq<OutgoingView>)
    requires
        forall|k: int|
            0 <= k < frames.len() ==> (#[trigger] frames[k]) is MaxData || frames[k] is MaxStreamData,
    ensures
        payload_of(frames).len() <= frames.len() * CONTROL_LEN,
    decreases frames.len(),
{
    if frames.len() > 0 {
        lemma_control_len(frames.drop_last());
        match frames.last() {
            OutgoingView::MaxData(max) => lemma_varint_round_trip(max, Seq::empty()),
            OutgoingView::MaxStreamData { stream_id, max } => {
                lemma_varint_round_trip(stream_id, Seq::empty());
                lemma_varint_round_trip(max, Seq::empty());
            },
            _ => {},
        }
        assert(frames[frames.len() - 1] == frames.last());
    }
}

/// What the application space sends next fits a packet, with the header and the tag, where
/// the limits that wait leave room.
pub proof fn lemma_next_frames_fit(c: ConnView, max_datagram: u64)
    requires
        c.wf(),
        c.dcid.len() <= 20,
        PACKET_OVERHEAD <= max_datagram <= MAX_UDP_PAYLOAD,
        (c.pending_max_data.len() + c.pending_max_stream_data.len()) * CONTROL_LEN <= max_datagram
            - PACKET_OVERHEAD,
    ensures
        ({
            let (next, frames, _) = c.next_frames(PnSpace::Application, max_datagram);
            let payload = next.padded(PnSpace::Application, frames);
            &&& next.next_header(PnSpace::Application, payload.len()) is Some
            &&& next.next_header(PnSpace::Application, payload.len())->0.len() + payload.len()
                + TAG_LEN <= max_datagram
        }),
{
    let none = Seq::<OutgoingView>::empty();
    let control = none + max_data_frames(c.pending_max_data) + max_stream_data_frames(
        c.pending_max_stream_data,
    );
    lemma_control_len(control);
    let room = stream_room(max_datagram, control.len());
    assert(control.len() == c.pending_max_data.len() + c.pending_max_stream_data.len());
    lemma_stream_frames_fit(c.streams, c.limits, control, 0, room);
    let (d, frames, streamed) = c.collected(none, max_datagram);
    assert(payload_of(frames).len() <= max_datagram - PACKET_OVERHEAD);
    assert(frames.push(OutgoingView::Ping).drop_last() =~= frames);
    crate::wire::lemma_be_bytes_len(c.spaces[2].next_pn as nat, 2);
}

/// What the Initial and the Handshake space send next fits a packet, with the header and the
/// tag, however much is left of the CRYPTO stream, where the token leaves room.
pub proof fn lemma_crypto_frames_fit(c: ConnView, space: PnSpace)
    requires
        c.wf(),
        c.dcid.len() <= 20,
        c.retry_token.len() <= 1000,
        space != PnSpace::Application,
    ensures
        ({
            let (next, frames, _) = c.next_frames(space, MAX_UDP_PAYLOAD);
            let payload = next.padded(space, frames);
            &&& next.next_header(space, payload.len()) is Some
            &&& next.next_header(space, payload.len())->0.len() + payload.len() + TAG_LEN
                <= MAX_UDP_PAYLOAD
        }),
{
    let i = space.place();
    let s = c.spaces[i];
    assert(s.wf());
    let (next, frames, _) = c.next_frames(space, MAX_UDP_PAYLOAD);
    let full = c.next_header(space, MAX_UDP_PAYLOAD as nat)->0;
    crate::wire::lemma_be_bytes_len(s.next_pn as nat, 2);
    crate::wire::lemma_be_bytes_len(1, 4);
    lemma_varint_round_trip(c.retry_token.len() as u64, Seq::empty());
    lemma_varint_round_trip(s.crypto_sent, Seq::empty());
    let whole = (MAX_UDP_PAYLOAD + PN_LEN + TAG_LEN) as u64;
    crate::wire::lemma_be_bytes_len((0x4000 + whole) as nat, 2);
    assert(varint_bytes(whole).len() == 2);
    assert(full.len() <= 1 + 4 + 1 + 20 + 1 + 20 + 8 + 1000 + 2 + 2);
    let crypto = s.next_crypto(c.crypto_room(space, MAX_UDP_PAYLOAD) as nat);
    let none = Seq::<OutgoingView>::empty();
    assert(payload_of(none).len() == 0);
    assert(none.push(OutgoingView::Ping).drop_last() =~= none);
    assert(none.push(OutgoingView::Ping).last() == OutgoingView::Ping);
    assert(payload_of(frames).len() + full.len() + TAG_LEN <= MAX_UDP_PAYLOAD) by {
        if let Some(f) = crypto {
            let n = f->Crypto_data.len();
            crate::wire::lemma_be_bytes_len(n, 1);
            crate::wire::lemma_be_bytes_len(0x4000 + n, 2);
            assert(varint_bytes(n as u64).len() <= 2);
            let one = seq![f];
            assert(one.drop_last() =~= none);
            assert(one.last() == f);
            assert(payload_of(one) == payload_of(none) + frame_bytes(f));
            assert(one.push(OutgoingView::Ping).drop_last() =~= one);
        }
    }
    let payload = next.padded(space, frames);
    let length = (payload.len() + PN_LEN + TAG_LEN) as u64;
    crate::wire::lemma_be_bytes_len(length as nat, 1);
    crate::wire::lemma_be_bytes_len((0x4000 + length) as nat, 2);
    assert(varint_bytes(length).len() <= 2);
}

/// Packets that share a datagram are taken one after another: the first as if it were alone,
/// the others behind it.
pub proof fn lemma_packets_share_a_datagram(c: ConnView, a: Seq<u8>, b: Seq<u8>, now: u64)
    requires
        c.closed is None,
        a.len() > 0,
        b.len() > 0,
        packet_len(a + b) == a.len(),
    ensures
        match c.on_one(a, now) {
            (d, Ok(_)) => c.on_inbound(a + b, now) == d.on_inbound(b, now),
            (d, Err(f)) => c.on_inbound(a + b, now) == (d, Err::<(), QuicFault>(f)),
        },
{
    assert((a + b).take(a.len() as int) =~= a);
    assert((a + b).skip(a.len() as int) =~= b);
}

/// A closed connection stays closed, sends nothing and takes nothing in.
pub proof fn lemma_closed_is_final(c: ConnView, data: Seq<u8>, f: QuicFault, now: u64)
    requires
        c.closed is Some,
    ensures
        c.outbound(now) == (c, Seq::<Seq<u8>>::empty()),
        c.on_inbound(data, now) == (c, Ok::<(), QuicFault>(())),
        c.closed_with(f) == c,
{
}

} // verus!
