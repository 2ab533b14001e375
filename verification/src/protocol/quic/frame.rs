//! QUIC frames: those that the client sends, those that it acts on, and the calls into
//! the crate that writes and reads them.

use super::params::{varint_bytes, VARINT_LIMIT};
use courierust::courierust_quic::frame;
use vstd::prelude::*;
use vstd::string::*;

verus! {

/// A frame that the client sends.
#[allow(inconsistent_fields)]
#[derive(Debug)]
pub enum Outgoing {
    Ping,
    /// Ranges are pairs of a gap and a length; the first one's gap is unused.
    Ack { largest: u64, ranges: Vec<(u64, u64)> },
    Crypto { offset: u64, data: Vec<u8> },
    /// Stream data to the end of the packet.
    Stream { stream_id: u64, offset: u64, data: Vec<u8>, fin: bool },
    MaxData(u64),
    MaxStreamData { stream_id: u64, max: u64 },
    /// A datagram to the end of the packet.
    Datagram(Vec<u8>),
}

/// A sent frame as a mathematical value.
#[allow(inconsistent_fields)]
#[verifier::ext_equal]
pub enum OutgoingView {
    Ping,
    Ack { largest: u64, ranges: Seq<(u64, u64)> },
    Crypto { offset: u64, data: Seq<u8> },
    Stream { stream_id: u64, offset: u64, data: Seq<u8>, fin: bool },
    MaxData(u64),
    MaxStreamData { stream_id: u64, max: u64 },
    Datagram(Seq<u8>),
}

impl View for Outgoing {
    type V = OutgoingView;

    open spec fn view(&self) -> OutgoingView {
        match self {
            Outgoing::Ping => OutgoingView::Ping,
            Outgoing::Ack { largest, ranges } => OutgoingView::Ack {
                largest: *largest,
                ranges: ranges@,
            },
            Outgoing::Crypto { offset, data } => OutgoingView::Crypto {
                offset: *offset,
                data: data@,
            },
            Outgoing::Stream { stream_id, offset, data, fin } => OutgoingView::Stream {
                stream_id: *stream_id,
                offset: *offset,
                data: data@,
                fin: *fin,
            },
            Outgoing::MaxData(max) => OutgoingView::MaxData(*max),
            Outgoing::MaxStreamData { stream_id, max } => OutgoingView::MaxStreamData {
                stream_id: *stream_id,
                max: *max,
            },
            Outgoing::Datagram(data) => OutgoingView::Datagram(data@),
        }
    }
}

/// Sent frames as mathematical values.
pub open spec fn frames_view(v: Seq<Outgoing>) -> Seq<OutgoingView> {
    Seq::new(v.len(), |i: int| v[i]@)
}

/// The ranges of an ACK frame behind its first one.
pub open spec fn range_bytes(ranges: Seq<(u64, u64)>) -> Seq<u8>
    decreases ranges.len(),
{
    if ranges.len() == 0 {
        Seq::empty()
    } else {
        varint_bytes(ranges[0].0) + varint_bytes(ranges[0].1) + range_bytes(ranges.skip(1))
    }
}

/// A frame on the wire.
pub open spec fn frame_bytes(f: OutgoingView) -> Seq<u8> {
    match f {
        OutgoingView::Ping => seq![0x01u8],
        OutgoingView::Ack { largest, ranges } => seq![0x02u8] + varint_bytes(largest)
            + varint_bytes(0) + (if ranges.len() == 0 {
            varint_bytes(0) + varint_bytes(0)
        } else {
            varint_bytes((ranges.len() - 1) as u64) + varint_bytes(ranges[0].1) + range_bytes(
                ranges.skip(1),
            )
        }),
        OutgoingView::Crypto { offset, data } => seq![0x06u8] + varint_bytes(offset) + varint_bytes(
            data.len() as u64,
        ) + data,
        OutgoingView::Stream { stream_id, offset, data, fin } => seq![
            if fin {
                0x0fu8
            } else {
                0x0eu8
            },
        ] + varint_bytes(stream_id) + varint_bytes(offset) + varint_bytes(data.len() as u64) + data,
        OutgoingView::MaxData(max) => seq![0x10u8] + varint_bytes(max),
        OutgoingView::MaxStreamData { stream_id, max } => seq![0x11u8] + varint_bytes(stream_id)
            + varint_bytes(max),
        OutgoingView::Datagram(data) => seq![0x30u8] + data,
    }
}

/// Whether every number in a frame is a variable-length integer.
pub open spec fn encodable(f: OutgoingView) -> bool {
    match f {
        OutgoingView::Ping => true,
        OutgoingView::Ack { largest, ranges } => largest < VARINT_LIMIT && ranges.len()
            <= VARINT_LIMIT && forall|i: int|
            0 <= i < ranges.len() ==> (#[trigger] ranges[i]).0 < VARINT_LIMIT && ranges[i].1
                < VARINT_LIMIT,
        OutgoingView::Crypto { offset, data } => offset < VARINT_LIMIT && data.len() < VARINT_LIMIT,
        OutgoingView::Stream { stream_id, offset, data, fin } => stream_id < VARINT_LIMIT && offset
            < VARINT_LIMIT && data.len() < VARINT_LIMIT,
        OutgoingView::MaxData(max) => max < VARINT_LIMIT,
        OutgoingView::MaxStreamData { stream_id, max } => stream_id < VARINT_LIMIT && max
            < VARINT_LIMIT,
        OutgoingView::Datagram(data) => true,
    }
}

/// Whether the ranges below a lowest number stay above zero: the gap and two more lie
/// between one range and the next.
pub open spec fn descends(low: u64, ranges: Seq<(u64, u64)>) -> bool
    decreases ranges.len(),
{
    ranges.len() > 0 ==> {
        let high = low - ranges[0].0 - 2;
        &&& high >= ranges[0].1
        &&& descends((high - ranges[0].1) as u64, ranges.skip(1))
    }
}

/// The most ranges behind the first one that a receiver takes.
pub const ACK_RANGE_LIMIT: usize = 4096;

/// Whether a receiver takes the ranges of an ACK frame.
pub open spec fn ranges_readable(largest: u64, ranges: Seq<(u64, u64)>) -> bool {
    &&& 1 <= ranges.len() <= ACK_RANGE_LIMIT + 1
    &&& ranges[0].0 == 0
    &&& ranges[0].1 <= largest
    &&& descends((largest - ranges[0].1) as u64, ranges.skip(1))
}

/// Whether a receiver reads a frame back as it was sent.
pub open spec fn read_back(f: OutgoingView) -> bool {
    match f {
        OutgoingView::Ack { largest, ranges } => ranges_readable(largest, ranges),
        _ => true,
    }
}

/// Whether a receiver reads a frame back in front of `rest`: a DATAGRAM carries no length
/// and takes all that follows.
pub open spec fn delimited(f: OutgoingView, rest: Seq<u8>) -> bool {
    read_back(f) && (rest.len() == 0 || !(f is Datagram))
}

impl OutgoingView {
    /// The frame as its receiver sees it.
    pub open spec fn received(self) -> FrameView {
        match self {
            OutgoingView::Ping => FrameView::Other,
            OutgoingView::Ack { largest, ranges } => FrameView::Ack { largest, delay: 0, ranges },
            OutgoingView::Crypto { offset, data } => FrameView::Crypto { offset, data },
            OutgoingView::Stream { stream_id, offset, data, fin } => FrameView::Stream {
                stream_id,
                offset: Some(offset),
                data,
                fin,
            },
            OutgoingView::MaxData(max) => FrameView::MaxData(max),
            OutgoingView::MaxStreamData { stream_id, max } => FrameView::MaxStreamData {
                stream_id,
                max,
            },
            OutgoingView::Datagram(data) => FrameView::Datagram(data),
        }
    }
}

/// Whether a receiver reads a frame off its bytes in front of `rest`.
pub open spec fn reads_as(bytes: Seq<u8>, rest: Seq<u8>, f: OutgoingView) -> bool {
    frame_of(bytes + rest) == Ok::<(FrameView, nat), Seq<char>>((f.received(), bytes.len()))
}

/// `courierust_quic::frame::Frame::to_bytes` of an ACK frame without delay and ECN counts,
/// or of a CRYPTO, STREAM or DATAGRAM frame, the last without a length: the frame on the
/// wire, which `Frame::decode` reads back, an ACK where its ranges stay above zero. Whatever
/// stands behind it, `Frame::decode` stops at its end, except for a DATAGRAM. The frames
/// without a payload are not written here.
#[verifier::external_body]
fn encode_payload(f: &Outgoing) -> (r: Vec<u8>)
    requires
        encodable(f@),
        f is Ack || f is Crypto || f is Stream || f is Datagram,
    ensures
        r@ == frame_bytes(f@),
        forall|rest: Seq<u8>| delimited(f@, rest) ==> #[trigger] reads_as(r@, rest, f@),
{
    match f {
        Outgoing::Ack { largest, ranges } => frame::Frame::Ack { largest_acked: *largest, ack_delay: 0, ranges: ranges.clone(), ecn: None },
        Outgoing::Crypto { offset, data } => frame::Frame::Crypto { offset: *offset, data: data.clone() },
        Outgoing::Stream { stream_id, offset, data, fin } => frame::Frame::Stream { stream_id: *stream_id, offset: Some(*offset), data: data.clone(), length: Some(data.len() as u64), fin: *fin },
        Outgoing::Datagram(data) => frame::Frame::Datagram { data: data.clone(), length: None },
        _ => frame::Frame::Ping,
    }.to_bytes()
}

/// `courierust_quic::frame::Frame::to_bytes` of a PING, MAX_DATA or MAX_STREAM_DATA frame:
/// the frame on the wire, which `Frame::decode` reads back, whatever stands behind it.
#[verifier::external_body]
fn encode_control(f: &Outgoing) -> (r: Vec<u8>)
    requires
        encodable(f@),
        f is Ping || f is MaxData || f is MaxStreamData,
    ensures
        r@ == frame_bytes(f@),
        forall|rest: Seq<u8>| #[trigger] reads_as(r@, rest, f@),
{
    match f {
        Outgoing::MaxData(max) => frame::Frame::MaxData(*max),
        Outgoing::MaxStreamData { stream_id, max } => frame::Frame::MaxStreamData { stream_id: *stream_id, max: *max },
        _ => frame::Frame::Ping,
    }.to_bytes()
}

fn ranges_fit(ranges: &Vec<(u64, u64)>) -> (r: bool)
    ensures
        r == forall|i: int|
            0 <= i < ranges@.len() ==> (#[trigger] ranges@[i]).0 < VARINT_LIMIT && ranges@[i].1
                < VARINT_LIMIT,
{
    let mut i: usize = 0;
    while i < ranges.len()
        invariant
            i <= ranges@.len(),
            forall|j: int|
                0 <= j < i ==> (#[trigger] ranges@[j]).0 < VARINT_LIMIT && ranges@[j].1
                    < VARINT_LIMIT,
        decreases ranges@.len() - i,
    {
        if ranges[i].0 >= VARINT_LIMIT || ranges[i].1 >= VARINT_LIMIT {
            return false;
        }
        i = i + 1;
    }
    true
}

impl Outgoing {
    /// Whether every number in the frame is a variable-length integer.
    pub fn is_encodable(&self) -> (r: bool)
        ensures
            r == encodable(self@),
    {
        match self {
            Outgoing::Ping => true,
            Outgoing::Ack { largest, ranges } => *largest < VARINT_LIMIT && ranges.len() as u64
                <= VARINT_LIMIT && ranges_fit(ranges),
            Outgoing::Crypto { offset, data } => *offset < VARINT_LIMIT && (data.len() as u64)
                < VARINT_LIMIT,
            Outgoing::Stream { stream_id, offset, data, fin } => *stream_id < VARINT_LIMIT && *offset
                < VARINT_LIMIT && (data.len() as u64) < VARINT_LIMIT,
            Outgoing::MaxData(max) => *max < VARINT_LIMIT,
            Outgoing::MaxStreamData { stream_id, max } => *stream_id < VARINT_LIMIT && *max
                < VARINT_LIMIT,
            Outgoing::Datagram(data) => true,
        }
    }

    /// The frame on the wire. Its receiver reads it back whatever stands behind it, an ACK
    /// where its ranges stay above zero, a DATAGRAM where it is the last one.
    pub fn encode(&self) -> (r: Vec<u8>)
        requires
            encodable(self@),
        ensures
            r@ == frame_bytes(self@),
            forall|rest: Seq<u8>| delimited(self@, rest) ==> #[trigger] reads_as(r@, rest, self@),
    {
        match self {
            Outgoing::Ping | Outgoing::MaxData(_) | Outgoing::MaxStreamData { .. } => encode_control(
                self,
            ),
            _ => encode_payload(self),
        }
    }

    /// The same frame in a value of its own.
    pub fn copy(&self) -> (r: Self)
        ensures
            r@ == self@,
    {
        match self {
            Outgoing::Ping => Outgoing::Ping,
            Outgoing::Ack { largest, ranges } => {
                let mut copy: Vec<(u64, u64)> = Vec::new();
                let mut i: usize = 0;
                while i < ranges.len()
                    invariant
                        i <= ranges@.len(),
                        copy@ == ranges@.take(i as int),
                    decreases ranges@.len() - i,
                {
                    copy.push((ranges[i].0, ranges[i].1));
                    proof {
                        assert(copy@ =~= ranges@.take(i + 1));
                    }
                    i = i + 1;
                }
                proof {
                    assert(copy@ =~= ranges@);
                }
                Outgoing::Ack { largest: *largest, ranges: copy }
            },
            Outgoing::Crypto { offset, data } => Outgoing::Crypto {
                offset: *offset,
                data: data.clone(),
            },
            Outgoing::Stream { stream_id, offset, data, fin } => Outgoing::Stream {
                stream_id: *stream_id,
                offset: *offset,
                data: data.clone(),
                fin: *fin,
            },
            Outgoing::MaxData(max) => Outgoing::MaxData(*max),
            Outgoing::MaxStreamData { stream_id, max } => Outgoing::MaxStreamData {
                stream_id: *stream_id,
                max: *max,
            },
            Outgoing::Datagram(data) => Outgoing::Datagram(data.clone()),
        }
    }
}

/// Frames one after another.
pub open spec fn payload_of(frames: Seq<OutgoingView>) -> Seq<u8>
    decreases frames.len(),
{
    if frames.len() == 0 {
        Seq::empty()
    } else {
        payload_of(frames.drop_last()) + frame_bytes(frames.last())
    }
}

/// Whether every frame can be written.
pub open spec fn all_encodable(frames: Seq<OutgoingView>) -> bool {
    forall|i: int| 0 <= i < frames.len() ==> encodable(#[trigger] frames[i])
}

/// Where the `k`th frame begins in the payload.
pub open spec fn frame_at(frames: Seq<OutgoingView>, k: int) -> int {
    payload_of(frames.take(k)).len() as int
}

/// Whether a receiver of a payload finds the `k`th frame where it begins.
pub open spec fn found(frames: Seq<OutgoingView>, k: int, payload: Seq<u8>) -> bool {
    frame_of(payload.skip(frame_at(frames, k))) == Ok::<(FrameView, nat), Seq<char>>(
        (frames[k].received(), frame_bytes(frames[k]).len()),
    )
}

proof fn lemma_frame_at(frames: Seq<OutgoingView>, k: int)
    requires
        0 <= k < frames.len(),
    ensures
        frame_at(frames, k + 1) == frame_at(frames, k) + frame_bytes(frames[k]).len(),
        frame_at(frames, k + 1) <= payload_of(frames).len(),
        payload_of(frames).skip(frame_at(frames, k)) == frame_bytes(frames[k])
            + payload_of(frames).skip(frame_at(frames, k + 1)),
        k + 1 == frames.len() ==> payload_of(frames).skip(frame_at(frames, k + 1)).len() == 0,
    decreases frames.len(),
{
    assert(frames.take(k + 1).drop_last() =~= frames.take(k));
    assert(frames.take(k + 1).last() == frames[k]);
    let whole = payload_of(frames);
    if k + 1 == frames.len() {
        assert(frames.take(k + 1) =~= frames);
        assert(whole.skip(frame_at(frames, k)) =~= frame_bytes(frames[k]) + whole.skip(
            frame_at(frames, k + 1),
        ));
    } else {
        let front = frames.drop_last();
        lemma_frame_at(front, k);
        assert(front.take(k) =~= frames.take(k));
        assert(front.take(k + 1) =~= frames.take(k + 1));
        let part = payload_of(front);
        assert(whole.skip(frame_at(frames, k)) =~= part.skip(frame_at(frames, k)) + frame_bytes(
            frames.last(),
        ));
        assert(whole.skip(frame_at(frames, k)) =~= frame_bytes(frames[k]) + whole.skip(
            frame_at(frames, k + 1),
        ));
    }
}

/// Frames one after another, where each can be written. Their receiver finds every one of
/// them, but for what `delimited` leaves out.
pub fn encode_frames(frames: &Vec<Outgoing>) -> (r: Option<Vec<u8>>)
    ensures
        r is Some <==> all_encodable(frames_view(frames@)),
        r is Some ==> r->Some_0@ == payload_of(frames_view(frames@)),
        r is Some ==> forall|k: int|
            0 <= k < frames@.len() && delimited(
                frames@[k]@,
                r->Some_0@.skip(frame_at(frames_view(frames@), k + 1)),
            ) ==> #[trigger] found(frames_view(frames@), k, r->Some_0@),
{
    let ghost all = frames_view(frames@);
    let mut out: Vec<u8> = Vec::new();
    let mut i: usize = 0;
    proof {
        assert(all.take(0) =~= Seq::empty());
    }
    while i < frames.len()
        invariant
            i <= frames@.len(),
            all == frames_view(frames@),
            forall|j: int| 0 <= j < i ==> encodable(#[trigger] all[j]),
            forall|j: int, rest: Seq<u8>|
                0 <= j < i && delimited(all[j], rest) ==> #[trigger] reads_as(
                    frame_bytes(all[j]),
                    rest,
                    all[j],
                ),
            out@ == payload_of(all.take(i as int)),
        decreases frames@.len() - i,
    {
        proof {
            assert(all[i as int] == frames@[i as int]@);
            assert(all.take(i + 1).drop_last() =~= all.take(i as int));
            assert(all.take(i + 1).last() == all[i as int]);
        }
        if !frames[i].is_encodable() {
            return None;
        }
        let mut bytes = frames[i].encode();
        out.append(&mut bytes);
        proof {
            assert(out@ =~= payload_of(all.take(i + 1)));
        }
        i = i + 1;
    }
    proof {
        assert(all.take(i as int) =~= all);
        assert forall|k: int|
            0 <= k < all.len() && delimited(frames@[k]@, out@.skip(frame_at(all, k + 1))) implies (
        #[trigger] found(all, k, out@)) by {
            lemma_frame_at(all, k);
            assert(all[k] == frames@[k]@);
            assert(reads_as(frame_bytes(all[k]), out@.skip(frame_at(all, k + 1)), all[k]));
        }
    }
    Some(out)
}

/// A received frame that the client acts on.
#[allow(inconsistent_fields)]
#[derive(Debug)]
pub enum Frame {
    Ack { largest: u64, delay: u64, ranges: Vec<(u64, u64)> },
    Crypto { offset: u64, data: Vec<u8> },
    Stream { stream_id: u64, offset: Option<u64>, data: Vec<u8>, fin: bool },
    Datagram(Vec<u8>),
    MaxData(u64),
    MaxStreamData { stream_id: u64, max: u64 },
    MaxStreams { unidirectional: bool, max: u64 },
    ResetStream { stream_id: u64, error_code: u64 },
    ConnectionClose { error_code: u64, reason: Vec<u8> },
    HandshakeDone,
    /// A frame that asks nothing of this client.
    Other,
}

/// A received frame as a mathematical value.
#[allow(inconsistent_fields)]
#[verifier::ext_equal]
pub enum FrameView {
    Ack { largest: u64, delay: u64, ranges: Seq<(u64, u64)> },
    Crypto { offset: u64, data: Seq<u8> },
    Stream { stream_id: u64, offset: Option<u64>, data: Seq<u8>, fin: bool },
    Datagram(Seq<u8>),
    MaxData(u64),
    MaxStreamData { stream_id: u64, max: u64 },
    MaxStreams { unidirectional: bool, max: u64 },
    ResetStream { stream_id: u64, error_code: u64 },
    ConnectionClose { error_code: u64, reason: Seq<u8> },
    HandshakeDone,
    Other,
}

impl View for Frame {
    type V = FrameView;

    open spec fn view(&self) -> FrameView {
        match self {
            Frame::Ack { largest, delay, ranges } => FrameView::Ack {
                largest: *largest,
                delay: *delay,
                ranges: ranges@,
            },
            Frame::Crypto { offset, data } => FrameView::Crypto { offset: *offset, data: data@ },
            Frame::Stream { stream_id, offset, data, fin } => FrameView::Stream {
                stream_id: *stream_id,
                offset: *offset,
                data: data@,
                fin: *fin,
            },
            Frame::Datagram(data) => FrameView::Datagram(data@),
            Frame::MaxData(max) => FrameView::MaxData(*max),
            Frame::MaxStreamData { stream_id, max } => FrameView::MaxStreamData {
                stream_id: *stream_id,
                max: *max,
            },
            Frame::MaxStreams { unidirectional, max } => FrameView::MaxStreams {
                unidirectional: *unidirectional,
                max: *max,
            },
            Frame::ResetStream { stream_id, error_code } => FrameView::ResetStream {
                stream_id: *stream_id,
                error_code: *error_code,
            },
            Frame::ConnectionClose { error_code, reason } => FrameView::ConnectionClose {
                error_code: *error_code,
                reason: reason@,
            },
            Frame::HandshakeDone => FrameView::HandshakeDone,
            Frame::Other => FrameView::Other,
        }
    }
}

impl FrameView {
    /// Whether the frame carries a payload or acknowledgements.
    pub open spec fn has_payload(self) -> bool {
        self is Ack || self is Crypto || self is Stream || self is Datagram
    }

    /// What the wire format bounds: offsets are variable-length integers, and the first
    /// acknowledged range does not reach below packet number zero.
    pub open spec fn bounded(self) -> bool {
        match self {
            FrameView::Ack { largest, delay, ranges } => largest < VARINT_LIMIT && (ranges.len() > 0
                ==> ranges[0].1 <= largest) && forall|i: int|
                0 <= i < ranges.len() ==> (#[trigger] ranges[i]).0 < VARINT_LIMIT && ranges[i].1
                    < VARINT_LIMIT,
            FrameView::Crypto { offset, data } => offset < VARINT_LIMIT,
            FrameView::Stream { stream_id, offset, data, fin } => offset is Some ==> offset->0
                < VARINT_LIMIT,
            _ => true,
        }
    }
}

/// The frame at the front of a payload and the bytes it takes, or why there is none.
pub uninterp spec fn frame_of(buf: Seq<u8>) -> core::result::Result<(FrameView, nat), Seq<char>>;

/// `courierust_quic::frame::Frame::decode`, for the frames with a payload: such a frame at
/// the front of `buf`, or `Other` for another one, with the bytes it takes, at least one.
/// Its numbers are variable-length integers, and the decoder refuses an acknowledgement
/// whose first range is longer than its largest packet number. The text of the error where
/// it fails.
#[verifier::external_body]
fn decode_payload(buf: &[u8]) -> (r: core::result::Result<(Frame, usize), String>)
    ensures
        match frame_of(buf@) {
            Ok((f, n)) => r is Ok && r->Ok_0.1 == n && 1 <= n <= buf@.len() && r->Ok_0.0@ == (
            if f.has_payload() {
                f
            } else {
                FrameView::Other
            }) && r->Ok_0.0@.bounded(),
            Err(m) => r is Err && r->Err_0@ == m,
        },
{
    let (f, n) = frame::Frame::decode(buf).map_err(|e| e.to_string())?;
    let f = match f {
        frame::Frame::Ack { largest_acked, ack_delay, ranges, .. } => Frame::Ack { largest: largest_acked, delay: ack_delay, ranges },
        frame::Frame::Crypto { offset, data } => Frame::Crypto { offset, data },
        frame::Frame::Stream { stream_id, offset, data, fin, .. } => Frame::Stream { stream_id, offset, data, fin },
        frame::Frame::Datagram { data, .. } => Frame::Datagram(data),
        _ => Frame::Other,
    };
    Ok((f, n))
}

/// `courierust_quic::frame::Frame::decode`, for the frames without a payload: such a frame
/// at the front of `buf`, or `Other` for another one and for those that ask nothing of a
/// client. `Other` too where decoding fails.
#[verifier::external_body]
fn decode_control(buf: &[u8]) -> (r: Frame)
    ensures
        match frame_of(buf@) {
            Ok((f, n)) => r@ == (if f.has_payload() {
                FrameView::Other
            } else {
                f
            }),
            Err(m) => r@ == FrameView::Other,
        },
{
    match frame::Frame::decode(buf).map(|r| r.0) {
        Ok(frame::Frame::MaxData(max)) => Frame::MaxData(max),
        Ok(frame::Frame::MaxStreamData { stream_id, max }) => Frame::MaxStreamData { stream_id, max },
        Ok(frame::Frame::MaxStreams { unidirectional, max }) => Frame::MaxStreams { unidirectional, max },
        Ok(frame::Frame::ResetStream { stream_id, app_error_code, .. }) => Frame::ResetStream { stream_id, error_code: app_error_code },
        Ok(frame::Frame::ConnectionClose { error_code, reason, .. }) => Frame::ConnectionClose { error_code, reason },
        Ok(frame::Frame::HandshakeDone) => Frame::HandshakeDone,
        _ => Frame::Other,
    }
}

/// Decode the frame at the front of a payload: the frame and the bytes it takes.
pub fn decode_frame(buf: &[u8]) -> (r: core::result::Result<(Frame, usize), String>)
    ensures
        match frame_of(buf@) {
            Ok((f, n)) => r is Ok && r->Ok_0.0@ == f && r->Ok_0.1 == n && 1 <= n <= buf@.len()
                && f.bounded(),
            Err(m) => r is Err && r->Err_0@ == m,
        },
{
    match decode_payload(buf) {
        Ok((Frame::Other, n)) => Ok((decode_control(buf), n)),
        r => r,
    }
}

} // verus!
