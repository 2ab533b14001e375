//! What the frames of the peer bring about: what a connection may do behind each of them
//! that it could not do before, and what stays as it was.

use super::error::QuicFault;
use super::frame::{FrameView, OutgoingView};
use super::recovery::{capped, max_int, minus, MAX_ACK_DELAY, MILLI, MSS, Recovery};
use super::space::PnSpace;
use super::streams::{
    lemma_received_holds, OutcomeView, StreamView, MAX_RECV_BUFFER, MAX_SEND_BUFFER,
};
use super::transport::{
    stream_frames, stream_from, stream_room, ConnView, Limits, Timers, MIN_STREAM_DATA,
    STREAM_HEADER,
};
use crate::text::lossy_text;
use vstd::prelude::*;
use vstd::string::*;

verus! {

// ---------------------------------------------------------------------------
// Which stream is meant
// ---------------------------------------------------------------------------

/// Streams are told apart by their identifiers.
pub open spec fn distinct(streams: Seq<(u64, StreamView)>) -> bool {
    forall|i: int, j: int|
        0 <= i < j < streams.len() ==> (#[trigger] streams[i]).0 != (#[trigger] streams[j]).0
}

proof fn lemma_from_bounds(streams: Seq<(u64, StreamView)>, id: u64, from: int)
    requires
        0 <= from <= streams.len(),
    ensures
        from <= stream_from(streams, id, from) <= streams.len(),
        stream_from(streams, id, from) < streams.len() ==> streams[stream_from(
            streams,
            id,
            from,
        )].0 == id,
        forall|k: int| from <= k < stream_from(streams, id, from) ==> (#[trigger] streams[k]).0 != id,
    decreases streams.len() - from,
{
    if from < streams.len() && streams[from].0 != id {
        lemma_from_bounds(streams, id, from + 1);
    }
}

/// A stream is found by its identifier, and where none has it none is found.
pub proof fn lemma_stream_found(c: ConnView, id: u64, i: int)
    requires
        distinct(c.streams),
    ensures
        0 <= i < c.streams.len() && c.streams[i].0 == id ==> c.stream(id) == i,
        (forall|k: int| 0 <= k < c.streams.len() ==> (#[trigger] c.streams[k]).0 != id) ==> c.stream(
            id,
        ) == c.streams.len(),
        0 <= c.stream(id) <= c.streams.len(),
        c.stream(id) < c.streams.len() ==> c.streams[c.stream(id)].0 == id,
{
    lemma_from_bounds(c.streams, id, 0);
    if 0 <= i < c.streams.len() && c.streams[i].0 == id {
        let k = c.stream(id);
        if k < i {
            assert(c.streams[k].0 != c.streams[i].0);
        }
    }
}

/// Whether two connections differ in nothing but the state of the `i`th stream.
pub open spec fn differ_in_stream(a: ConnView, b: ConnView, i: int) -> bool {
    &&& b == (ConnView { streams: b.streams, ..a })
    &&& b.streams.len() == a.streams.len()
    &&& b.streams[i].0 == a.streams[i].0
    &&& forall|k: int| 0 <= k < a.streams.len() && k != i ==> #[trigger] b.streams[k] == a.streams[k]
}

// ---------------------------------------------------------------------------
// Credit for sending
// ---------------------------------------------------------------------------

/// Whether a stream has bytes that its own limit lets go out for the first time.
pub open spec fn eager(s: StreamView) -> bool {
    &&& s.reset_sent is None
    &&& s.sent_through < s.write_pos
    &&& s.sent_through < s.peer_limit
}

/// Whether a frame carries bytes of a stream from where its frames stopped, as they were
/// written.
pub open spec fn continues(f: OutgoingView, id: u64, s: StreamView) -> bool {
    f matches OutgoingView::Stream { stream_id, offset, data, fin } && stream_id == id && offset
        == s.sent_through && data.len() > 0 && forall|j: int|
        0 <= j < data.len() ==> #[trigger] data[j] == s.byte(offset + j)
}

proof fn lemma_frames_kept(
    streams: Seq<(u64, StreamView)>,
    limits: Limits,
    frames: Seq<OutgoingView>,
    i: int,
    budget: u64,
)
    ensures
        stream_frames(streams, limits, frames, i, budget).2.len() >= frames.len(),
        stream_frames(streams, limits, frames, i, budget).2.take(frames.len() as int) == frames,
    decreases streams.len() - i,
{
    let all = stream_frames(streams, limits, frames, i, budget).2;
    if i < 0 || i >= streams.len() || budget < STREAM_HEADER + MIN_STREAM_DATA {
        assert(all.take(frames.len() as int) =~= frames);
    } else if !streams[i].1.has_send_data() {
        lemma_frames_kept(streams, limits, frames, i + 1, budget);
    } else {
        let id = streams[i].0;
        let send_limit = streams[i].1.peer_limit;
        let credit = minus(limits.peer_max_data, limits.total_sent);
        let room = (budget - STREAM_HEADER) as u64;
        let (next, frame, used) = streams[i].1.next_frame(id, send_limit, credit, room);
        match frame {
            None => lemma_frames_kept(streams, limits, frames, i + 1, budget),
            Some(f) => {
                lemma_frames_kept(
                    streams.update(i, (id, next)),
                    Limits { total_sent: capped(limits.total_sent + used), ..limits },
                    frames.push(f),
                    i + 1,
                    (room - streams[i].1.frame_len(send_limit, credit, room)) as u64,
                );
                assert(all.take(frames.len() as int) =~= all.take(frames.len() as int + 1).take(
                    frames.len() as int,
                ));
                assert(frames.push(f).take(frames.len() as int) =~= frames);
            },
        }
    }
}

proof fn lemma_first_goes_out(
    streams: Seq<(u64, StreamView)>,
    limits: Limits,
    frames: Seq<OutgoingView>,
    from: int,
    i: int,
    budget: u64,
)
    requires
        0 <= from <= i < streams.len(),
        forall|k: int| from <= k < i ==> !(#[trigger] streams[k]).1.has_send_data(),
        streams[i].1.wf(),
        eager(streams[i].1),
        limits.total_sent < limits.peer_max_data,
        budget >= STREAM_HEADER + MIN_STREAM_DATA,
    ensures
        ({
            let all = stream_frames(streams, limits, frames, from, budget).2;
            all.len() > frames.len() && continues(
                all[frames.len() as int],
                streams[i].0,
                streams[i].1,
            )
        }),
    decreases i - from,
{
    if from < i {
        assert(!streams[from].1.has_send_data());
        lemma_first_goes_out(streams, limits, frames, from + 1, i, budget);
    } else {
        let s = streams[i].1;
        let id = streams[i].0;
        let credit = minus(limits.peer_max_data, limits.total_sent);
        let room = (budget - STREAM_HEADER) as u64;
        let (next, frame, used) = s.next_frame(id, s.peer_limit, credit, room);
        let n = s.frame_len(s.peer_limit, credit, room);
        assert(n > 0);
        let f = frame->0;
        lemma_frames_kept(
            streams.update(i, (id, next)),
            Limits { total_sent: capped(limits.total_sent + used), ..limits },
            frames.push(f),
            i + 1,
            (room - n) as u64,
        );
        let all = stream_frames(streams, limits, frames, from, budget).2;
        assert(all[frames.len() as int] == all.take(frames.len() as int + 1)[frames.len() as int]);
        assert(continues(f, id, s));
    }
}

/// A stream with bytes to send sends them as soon as both its own limit and that of the
/// connection leave room: the first stream frame of the next packet carries the next of
/// them.
pub proof fn lemma_credit_lets_bytes_go(c: ConnView, i: int, max_datagram: u64)
    requires
        c.wf(),
        0 <= i < c.streams.len(),
        forall|k: int| 0 <= k < i ==> !(#[trigger] c.streams[k]).1.has_send_data(),
        eager(c.streams[i].1),
        c.limits.total_sent < c.limits.peer_max_data,
        stream_room(
            max_datagram,
            c.pending_max_data.len() + c.pending_max_stream_data.len(),
        ) >= STREAM_HEADER + MIN_STREAM_DATA,
    ensures
        ({
            let (d, frames, asks) = c.next_frames(PnSpace::Application, max_datagram);
            let n = (c.pending_max_data.len() + c.pending_max_stream_data.len()) as int;
            &&& asks
            &&& frames.len() > n
            &&& continues(frames[n], c.streams[i].0, c.streams[i].1)
        }),
{
    let none = Seq::<OutgoingView>::empty();
    let control = none + super::transport::max_data_frames(c.pending_max_data)
        + super::transport::max_stream_data_frames(c.pending_max_stream_data);
    assert(c.streams[i].1.wf());
    let room = stream_room(max_datagram, control.len());
    lemma_first_goes_out(c.streams, c.limits, control, 0, i, room);
    let (d, frames, some) = c.collected(none, max_datagram);
    assert(frames == stream_frames(c.streams, c.limits, control, 0, room).2);
}

/// MAX_DATA raises what may be sent on all streams together to its value, never lowers it,
/// and touches nothing else: where the connection's credit was all that held a stream back,
/// the next packet goes on with it.
pub proof fn lemma_max_data(c: ConnView, space: PnSpace, max: u64, now: u64, i: int, size: u64)
    requires
        c.wf(),
        0 <= i < c.streams.len(),
        forall|k: int| 0 <= k < i ==> !(#[trigger] c.streams[k]).1.has_send_data(),
        eager(c.streams[i].1),
        c.limits.total_sent < max,
        stream_room(size, c.pending_max_data.len() + c.pending_max_stream_data.len())
            >= STREAM_HEADER + MIN_STREAM_DATA,
    ensures
        ({
            let (d, r) = c.on_frame(space, FrameView::MaxData(max), now);
            let n = (c.pending_max_data.len() + c.pending_max_stream_data.len()) as int;
            let (e, frames, asks) = d.next_frames(PnSpace::Application, size);
            &&& r is Ok
            &&& asks
            &&& frames.len() > n
            &&& continues(frames[n], c.streams[i].0, c.streams[i].1)
        }),
{
    let d = c.on_frame(space, FrameView::MaxData(max), now).0;
    assert(d.wf());
    lemma_credit_lets_bytes_go(d, i, size);
}

/// A limit that a MAX_DATA frame names holds from then on unless a larger one held before,
/// and nothing else changes. A second frame with a smaller or the same value changes
/// nothing.
pub proof fn lemma_max_data_is_a_limit(c: ConnView, space: PnSpace, max: u64, less: u64, now: u64)
    requires
        less <= max,
    ensures
        ({
            let (d, r) = c.on_frame(space, FrameView::MaxData(max), now);
            &&& r is Ok
            &&& d.limits.peer_max_data >= max
            &&& d.limits.peer_max_data >= c.limits.peer_max_data
            &&& d.limits.peer_max_data == max || d.limits.peer_max_data == c.limits.peer_max_data
            &&& d == (ConnView {
                limits: Limits { peer_max_data: d.limits.peer_max_data, ..c.limits },
                ..c
            })
            &&& d.on_frame(space, FrameView::MaxData(less), now) == (d, Ok::<(), QuicFault>(()))
        }),
{
}

/// MAX_STREAM_DATA raises what may be sent on its stream and on no other, never lowers it,
/// and touches nothing else. For a stream that there is not it changes nothing.
pub proof fn lemma_max_stream_data(c: ConnView, space: PnSpace, id: u64, max: u64, now: u64, i: int)
    requires
        distinct(c.streams),
    ensures
        ({
            let frame = FrameView::MaxStreamData { stream_id: id, max };
            let (d, r) = c.on_frame(space, frame, now);
            let s = c.streams[i].1;
            let t = d.streams[i].1;
            &&& r is Ok
            &&& 0 <= i < c.streams.len() && c.streams[i].0 == id ==> {
                &&& differ_in_stream(c, d, i)
                &&& t.peer_limit >= max && t.peer_limit >= s.peer_limit
                &&& t.peer_limit == max || t.peer_limit == s.peer_limit
                &&& t == (StreamView { peer_limit: t.peer_limit, ..s })
                &&& s.reset_sent is None && s.sent_through < s.write_pos && s.sent_through < max
                    ==> eager(t)
            }
            &&& (forall|k: int| 0 <= k < c.streams.len() ==> (#[trigger] c.streams[k]).0 != id)
                ==> d == c
        }),
{
    lemma_stream_found(c, id, i);
}

/// MAX_STREAMS lets another stream of its kind be opened where the value is above the number
/// opened so far, and says nothing of the other kind.
pub proof fn lemma_max_streams(c: ConnView, space: PnSpace, uni: bool, max: u64, now: u64)
    ensures
        ({
            let frame = FrameView::MaxStreams { unidirectional: uni, max };
            let (d, r) = c.on_frame(space, frame, now);
            let opened = c.next_stream(uni).0 / 4;
            &&& r is Ok
            &&& c.may_open(uni) ==> d.may_open(uni)
            &&& opened < max && c.next_stream(uni).0 <= u64::MAX - 4 ==> d.may_open(uni)
            &&& d.may_open(uni) ==> c.may_open(uni) || opened < max
            &&& d.may_open(!uni) == c.may_open(!uni)
            &&& d.next_stream(uni).0 == c.next_stream(uni).0
            &&& d.next_stream(!uni) == c.next_stream(!uni)
            &&& d == (ConnView { limits: d.limits, ..c })
            &&& d.limits == (Limits {
                peer_uni_limit: d.limits.peer_uni_limit,
                peer_bidi_limit: d.limits.peer_bidi_limit,
                ..c.limits
            })
        }),
{
}

// ---------------------------------------------------------------------------
// Opening streams
// ---------------------------------------------------------------------------

/// Streams of this side have the identifiers that a client gives: four apart, divisible by
/// four where they run in both directions, and two more where they run in one. A new stream
/// is empty, may send what the peer allows on a new one of its kind, and takes in what was
/// advertised, nothing where it runs in one direction. The others stay as they are.
pub proof fn lemma_opened_stream(c: ConnView, uni: bool)
    requires
        c.wf(),
        c.may_open(uni),
        c.limits.next_bidi % 4 == 0,
        c.limits.next_uni % 4 == 2,
        forall|k: int| 0 <= k < c.streams.len() ==> (#[trigger] c.streams[k]).0 != c.next_stream(uni).0,
    ensures
        ({
            let id = c.next_stream(uni).0;
            let d = c.opened_stream(uni);
            let s = d.streams[d.stream(id)].1;
            &&& id % 4 == if uni {
                2int
            } else {
                0
            }
            &&& d.next_stream(uni).0 == id + 4
            &&& d.next_stream(!uni) == c.next_stream(!uni)
            &&& d.limits.next_bidi % 4 == 0 && d.limits.next_uni % 4 == 2
            &&& d.streams == c.streams.push((id, s))
            &&& s.write_pos == 0 && s.sent_through == 0 && s.in_order() == 0
            &&& s.send_buf.len() == 0 && s.recv_gaps.len() == 0
            &&& !s.fin_queued && !s.fin_recv && s.reset_recv is None && s.reset_sent is None
            &&& s.peer_limit == if uni {
                c.limits.peer_max_stream_data_uni
            } else {
                c.limits.peer_max_stream_data_bidi
            }
            &&& s.peer_send_limit == if uni {
                0
            } else {
                c.limits.my_max_stream_data_bidi_local
            }
        }),
{
    let id = c.next_stream(uni).0;
    let d = c.opened_stream(uni);
    lemma_from_bounds(c.streams, id, 0);
    lemma_from_bounds(d.streams, id, 0);
    let k = c.stream(id);
    if k < c.streams.len() {
        assert(c.streams[k].0 != id);
    }
    let n = d.stream(id);
    assert(d.streams[c.streams.len() as int].0 == id);
    if n < c.streams.len() {
        assert(d.streams[n] == c.streams[n]);
        assert(c.streams[n].0 != id);
    }
}

// ---------------------------------------------------------------------------
// Receiving
// ---------------------------------------------------------------------------

/// A STREAM frame within the stream's window and the room of its buffer is taken, and no
/// other: the bytes it carries wait to be read, none that waited is lost, the end is known
/// where the frame marks it, and no other stream changes.
pub proof fn lemma_stream_data_arrives(
    c: ConnView,
    space: PnSpace,
    id: u64,
    offset: u64,
    data: Seq<u8>,
    fin: bool,
    now: u64,
    i: int,
    at: int,
)
    requires
        c.wf(),
        0 <= i < c.streams.len(),
        c.streams[i].0 == id,
        c.streams[i].1.recv_contig <= at,
    ensures
        ({
            let frame = FrameView::Stream { stream_id: id, offset: Some(offset), data, fin };
            let (d, r) = c.on_frame(space, frame, now);
            let s = c.streams[i].1;
            let t = d.streams[i].1;
            let end = offset + data.len();
            &&& r is Ok <==> end <= s.peer_send_limit && s.buffered_recv() + data.len()
                <= MAX_RECV_BUFFER
            &&& d.streams.len() == c.streams.len()
            &&& d.streams[i].0 == id
            &&& forall|k: int|
                0 <= k < c.streams.len() && k != i ==> #[trigger] d.streams[k] == c.streams[k]
            &&& r is Ok ==> {
                &&& t.holds(at) == (s.holds(at) || offset <= at < end)
                &&& t.recv_contig == s.recv_contig
                &&& t.fin_recv == (s.fin_recv || fin)
                &&& fin ==> t.fin_recv_offset == end
                &&& !fin ==> t.fin_recv_offset == s.fin_recv_offset
                &&& t.write_pos == s.write_pos && t.sent_through == s.sent_through
                &&& t.send_buf == s.send_buf && t.peer_limit == s.peer_limit
                &&& d.limits.total_recv == capped(c.limits.total_recv + data.len())
                &&& t.peer_send_limit >= s.peer_send_limit
            }
            &&& r is Err ==> d == c
        }),
{
    lemma_stream_found(c, id, i);
    let s = c.streams[i].1;
    assert(s.wf());
    assert(c.with_new_stream(id) == c);
    if s.received(offset, data, fin) is Ok {
        lemma_received_holds(s, offset, data, fin, at);
        lemma_received_keeps(s, offset, data, fin);
    }
}

proof fn lemma_promoted_keeps(v: StreamView)
    ensures
        v.promoted() == (StreamView {
            recv_prefix: v.promoted().recv_prefix,
            recv_gaps: v.promoted().recv_gaps,
            ..v
        }),
    decreases v.recv_gaps.len(),
{
    if v.recv_gaps.len() > 0 && v.recv_gaps[0].0 <= v.in_order() {
        let (offset, data) = v.recv_gaps[0];
        lemma_promoted_keeps(
            StreamView { recv_gaps: v.recv_gaps.skip(1), ..v.joined(offset, data) },
        );
    }
}

proof fn lemma_received_keeps(v: StreamView, offset: u64, data: Seq<u8>, fin: bool)
    requires
        v.received(offset, data, fin) is Ok,
    ensures
        ({
            let t = v.received(offset, data, fin)->Ok_0;
            t == (StreamView {
                recv_prefix: t.recv_prefix,
                recv_gaps: t.recv_gaps,
                fin_recv: v.fin_recv || fin,
                fin_recv_offset: if fin {
                    (offset + data.len()) as u64
                } else {
                    v.fin_recv_offset
                },
                ..v
            })
        }),
{
    let w = v.finished_at(fin, offset + data.len());
    if offset <= w.in_order() {
        lemma_promoted_keeps(w.joined(offset, data));
    } else {
        lemma_promoted_keeps(
            StreamView {
                recv_gaps: super::streams::with_segment(w.recv_gaps, offset, data),
                ..w
            },
        );
    }
}

/// A stream that the peer has not used before comes with its first frame, with the window
/// that was advertised for one of its kind.
pub proof fn lemma_peer_opens_stream(
    c: ConnView,
    space: PnSpace,
    id: u64,
    data: Seq<u8>,
    fin: bool,
    now: u64,
)
    requires
        c.wf(),
        forall|k: int| 0 <= k < c.streams.len() ==> (#[trigger] c.streams[k]).0 != id,
        data.len() > 0,
        data.len() <= MAX_RECV_BUFFER,
    ensures
        ({
            let frame = FrameView::Stream { stream_id: id, offset: None, data, fin };
            let (d, r) = c.on_frame(space, frame, now);
            let window = if id % 4 == 1 {
                c.limits.my_max_stream_data_bidi_remote
            } else if id % 4 == 3 {
                c.limits.my_max_stream_data_uni
            } else {
                c.limits.my_max_stream_data_bidi_local
            };
            let n = c.streams.len() as int;
            &&& r is Ok <==> data.len() <= window
            &&& d.streams.len() == n + 1
            &&& d.streams[n].0 == id
            &&& d.streams.take(n) == c.streams
            &&& r is Ok ==> d.streams[n].1.recv_prefix == data && d.streams[n].1.recv_contig == 0
                && d.streams[n].1.fin_recv == fin
            &&& r is Ok && id % 4 == 3 ==> exists|k: int|
                0 <= k <= n && d.readable_from(0) == k && #[trigger] d.streams[k].0 % 4 == 3
        }),
{
    lemma_from_bounds(c.streams, id, 0);
    let n = c.streams.len() as int;
    let k = c.stream(id);
    if k < n {
        assert(c.streams[k].0 != id);
    }
    let e = c.with_new_stream(id);
    lemma_from_bounds(e.streams, id, 0);
    assert(e.streams[n].0 == id);
    let m = e.stream(id);
    if m < n {
        assert(e.streams[m] == c.streams[m]);
    }
    let s = e.streams[n].1;
    assert(super::streams::total(s.recv_gaps) == 0);
    let frame = FrameView::Stream { stream_id: id, offset: None, data, fin };
    let (d, r) = c.on_frame(space, frame, now);
    assert(s.recv_prefix + data.skip(0) =~= data);
    assert(d.streams.take(n) =~= c.streams);
    if r is Ok && id % 4 == 3 {
        lemma_readable(d, 0, n);
    }
}

proof fn lemma_readable(c: ConnView, from: int, n: int)
    requires
        0 <= from <= n < c.streams.len(),
        c.streams[n].0 % 4 == 3,
        c.streams[n].1.recv_prefix.len() > 0,
    ensures
        from <= c.readable_from(from) <= n,
        c.streams[c.readable_from(from)].0 % 4 == 3,
    decreases n - from,
{
    if from < n && !(c.streams[from].0 % 4 == 3 && (c.streams[from].1.recv_prefix.len() > 0
        || c.streams[from].1.fin_recv)) {
        lemma_readable(c, from + 1, n);
    }
}

/// A window that is more than half used is raised by half, and the peer is told so. One that
/// is not stays.
pub proof fn lemma_windows_are_raised(c: ConnView, i: int)
    requires
        0 <= i < c.streams.len(),
    ensures
        ({
            let d = c.credited(i);
            let s = c.streams[i].1;
            let w = s.peer_send_limit as int;
            let t = d.streams[i].1;
            let m = c.limits.max_data_advertised as int;
            &&& w > 0 && s.in_order() > w - w / 2 ==> t.peer_send_limit == capped(w + w / 2)
                && d.pending_max_stream_data == c.pending_max_stream_data.push(
                (c.streams[i].0, t.peer_send_limit),
            )
            &&& !(w > 0 && s.in_order() > w - w / 2) ==> t == s && d.pending_max_stream_data
                == c.pending_max_stream_data
            &&& c.limits.total_recv > m - m / 2 ==> d.limits.max_data_advertised == capped(
                m + m / 2,
            ) && d.pending_max_data == c.pending_max_data.push(d.limits.max_data_advertised)
            &&& c.limits.total_recv <= m - m / 2 ==> d.limits == c.limits && d.pending_max_data
                == c.pending_max_data
            &&& t == (StreamView { peer_send_limit: t.peer_send_limit, ..s })
            &&& d == (ConnView {
                streams: d.streams,
                limits: Limits {
                    max_data_advertised: d.limits.max_data_advertised,
                    ..c.limits
                },
                pending_max_data: d.pending_max_data,
                pending_max_stream_data: d.pending_max_stream_data,
                ..c
            })
        }),
{
}

/// What the peer is told of its windows goes out with the next packet, before any stream
/// frame, and is told once.
pub proof fn lemma_limits_are_told(c: ConnView, max_datagram: u64, k: int)
    ensures
        ({
            let (d, frames, asks) = c.next_frames(PnSpace::Application, max_datagram);
            let n = c.pending_max_data.len() as int;
            let m = c.pending_max_stream_data.len() as int;
            &&& frames.len() >= n + m
            &&& 0 <= k < n ==> frames[k] == OutgoingView::MaxData(c.pending_max_data[k])
            &&& 0 <= k < m ==> frames[n + k] == (OutgoingView::MaxStreamData {
                stream_id: c.pending_max_stream_data[k].0,
                max: c.pending_max_stream_data[k].1,
            })
            &&& d.pending_max_data.len() == 0 && d.pending_max_stream_data.len() == 0
            &&& n + m > 0 ==> asks
        }),
{
    let none = Seq::<OutgoingView>::empty();
    let control = none + super::transport::max_data_frames(c.pending_max_data)
        + super::transport::max_stream_data_frames(c.pending_max_stream_data);
    let room = stream_room(max_datagram, control.len());
    lemma_frames_kept(c.streams, c.limits, control, 0, room);
    let all = stream_frames(c.streams, c.limits, control, 0, room).2;
    let n = c.pending_max_data.len() as int;
    if 0 <= k < control.len() {
        assert(all[k] == all.take(control.len() as int)[k]);
    }
    if 0 <= n + k < control.len() {
        assert(all[n + k] == all.take(control.len() as int)[n + k]);
    }
}

/// RESET_STREAM makes every read of its stream answer with the code that it gives, and
/// changes nothing else.
pub proof fn lemma_reset_is_told(
    c: ConnView,
    space: PnSpace,
    id: u64,
    error_code: u64,
    now: u64,
    i: int,
    limit: nat,
)
    requires
        distinct(c.streams),
    ensures
        ({
            let frame = FrameView::ResetStream { stream_id: id, error_code };
            let (d, r) = c.on_frame(space, frame, now);
            &&& r is Ok
            &&& 0 <= i < c.streams.len() && c.streams[i].0 == id ==> {
                &&& differ_in_stream(c, d, i)
                &&& d.streams[i].1.read(limit).1 == OutcomeView::Reset(error_code)
                &&& d.streams[i].1.written(seq![0u8]) is Err
                &&& d.streams[i].1 == (StreamView {
                    reset_recv: d.streams[i].1.reset_recv,
                    ..c.streams[i].1
                })
            }
            &&& (forall|k: int| 0 <= k < c.streams.len() ==> (#[trigger] c.streams[k]).0 != id)
                ==> d == c
        }),
{
    lemma_stream_found(c, id, i);
}

/// CONNECTION_CLOSE closes the connection with the code and the reason of the peer: nothing
/// goes out and nothing is taken in from then on.
pub proof fn lemma_peer_closes(
    c: ConnView,
    space: PnSpace,
    error_code: u64,
    reason: Seq<u8>,
    now: u64,
    later: u64,
    data: Seq<u8>,
)
    ensures
        ({
            let frame = FrameView::ConnectionClose { error_code, reason };
            let (d, r) = c.on_frame(space, frame, now);
            &&& r is Ok
            &&& d.closed == Some(QuicFault::ClosedByPeer(error_code, lossy_text(reason)))
            &&& d == (ConnView { closed: d.closed, ..c })
            &&& d.outbound(later) == (d, Seq::<Seq<u8>>::empty())
            &&& d.on_inbound(data, later) == (d, Ok::<(), QuicFault>(()))
        }),
{
}

/// HANDSHAKE_DONE ends the handshake's spaces for good: they have no keys, wait for nothing
/// and get no keys back, while the application's space stays as it is.
pub proof fn lemma_handshake_done(c: ConnView, space: PnSpace, now: u64)
    requires
        c.spaces.len() == 3,
    ensures
        ({
            let (d, r) = c.on_frame(space, FrameView::HandshakeDone, now);
            &&& r is Ok
            &&& d.handshake_confirmed
            &&& d.spaces.len() == 3
            &&& d.spaces[2] == c.spaces[2]
            &&& forall|k: int|
                0 <= k < 2 ==> (#[trigger] d.spaces[k]).key is None && d.spaces[k].write_key is None
                    && d.spaces[k].sent.len() == 0
            &&& d.with_keys().spaces[0] == d.spaces[0]
            &&& d.with_keys().spaces[1].key is None && d.with_keys().spaces[1].write_key is None
            &&& d.streams == c.streams && d.limits == c.limits && d.tls == c.tls
            &&& d.closed == c.closed && d.datagram_rx == c.datagram_rx
            &&& d.recovery.bytes_in_flight <= c.recovery.bytes_in_flight
            &&& d.recovery == (Recovery {
                bytes_in_flight: d.recovery.bytes_in_flight,
                ..c.recovery
            })
        }),
{
}

/// Datagrams are handed out whole, in the order in which they came.
pub proof fn lemma_datagram_arrives(c: ConnView, space: PnSpace, data: Seq<u8>, now: u64)
    ensures
        ({
            let (d, r) = c.on_frame(space, FrameView::Datagram(data), now);
            &&& r is Ok
            &&& d.datagram_rx.len() == c.datagram_rx.len() + 1
            &&& d.datagram_rx.last() == data
            &&& d.datagram_rx.drop_last() == c.datagram_rx
            &&& d == (ConnView { datagram_rx: d.datagram_rx, ..c })
        }),
{
    let d = c.on_frame(space, FrameView::Datagram(data), now).0;
    assert(d.datagram_rx.drop_last() =~= c.datagram_rx);
}

/// A frame that asks nothing of the client changes nothing.
pub proof fn lemma_other_frame(c: ConnView, space: PnSpace, now: u64)
    ensures
        c.on_frame(space, FrameView::Other, now) == (c, Ok::<(), QuicFault>(())),
{
}

// ---------------------------------------------------------------------------
// Sending
// ---------------------------------------------------------------------------

/// Bytes that are written go behind those written before, as many as the buffer takes: each
/// is outstanding at its place, and none before it changes. Some are taken while the buffer
/// has room.
pub proof fn lemma_written_is_kept(v: StreamView, data: Seq<u8>, at: int)
    requires
        v.wf(),
        v.reset_sent is None,
        v.reset_recv is None,
    ensures
        v.written(data) is Ok <==> v.write_pos - v.ack_pos < MAX_SEND_BUFFER,
        v.written(data) matches Ok((w, n)) ==> {
            &&& n <= data.len()
            &&& data.len() > 0 && v.write_pos < u64::MAX ==> n > 0
            &&& data.len() <= MAX_SEND_BUFFER - (v.write_pos - v.ack_pos) && v.write_pos + data.len()
                <= u64::MAX ==> n == data.len()
            &&& w.write_pos == v.write_pos + n
            &&& w.write_pos - w.ack_pos <= MAX_SEND_BUFFER
            &&& v.write_pos <= at < w.write_pos ==> w.byte(at) == data[at - v.write_pos]
            &&& v.ack_pos <= at < v.write_pos ==> w.byte(at) == v.byte(at)
            &&& at < v.write_pos ==> w.outstanding(at) == v.outstanding(at)
            &&& w.sent_through == v.sent_through && w.recv_prefix == v.recv_prefix
            &&& w.fin_queued == v.fin_queued && w.peer_limit == v.peer_limit
        },
{
}

/// The end of a stream goes out with its last byte and not before: a frame marks the end
/// exactly where nothing that was written is behind it, the end was asked for, and it was
/// neither sent nor acknowledged.
pub proof fn lemma_end_goes_last(
    v: StreamView,
    id: u64,
    send_limit: u64,
    credit: u64,
    budget: u64,
)
    requires
        v.wf(),
    ensures
        v.next_frame(id, send_limit, credit, budget).1 matches Some(
            OutgoingView::Stream { stream_id, offset, data, fin },
        ) ==> {
            &&& stream_id == id
            &&& offset == v.sent_through
            &&& fin <==> v.fin_queued && !v.fin_sent && !v.fin_acked && offset + data.len()
                == v.write_pos
            &&& data.len() > 0 || fin
            &&& data.len() <= budget
            &&& data.len() > 0 ==> offset + data.len() <= send_limit
        },
        v.next_frame(id, send_limit, credit, budget).1 matches Some(f) ==> f is Stream,
        v.next_frame(id, send_limit, credit, budget).1 is None ==> v.next_frame(
            id,
            send_limit,
            credit,
            budget,
        ).0 == v,
        v.reset_sent is Some ==> v.next_frame(id, send_limit, credit, budget).1 is None,
{
}

/// An end that was acknowledged is not sent again, whatever is lost later. One that was lost
/// before it was acknowledged is due again, and a frame without the end settles nothing of it.
pub proof fn lemma_end_settled(
    v: StreamView,
    offset: u64,
    len: nat,
    lost_offset: u64,
    lost_fin: bool,
)
    ensures
        offset + len >= v.sent_through ==> !v.acked(offset, len, true).fin_due(),
        offset + len >= v.sent_through ==> !v.acked(offset, len, true).lost(
            lost_offset,
            lost_fin,
        ).fin_due(),
        v.acked(offset, len, false).fin_due() == v.fin_due(),
        v.fin_queued && !v.fin_acked ==> v.lost(lost_offset, true).fin_due(),
        v.lost(lost_offset, false).fin_due() == v.fin_due(),
{
}

// ---------------------------------------------------------------------------
// Time
// ---------------------------------------------------------------------------

/// A connection is given up where the peer is silent for longer than allowed, and only
/// there: during the handshake after its timeout, behind it after the idle timeout where
/// nothing is sent to keep it alive.
pub proof fn lemma_silence_closes(c: ConnView, now: u64)
    requires
        c.closed is None,
    ensures
        ({
            let d = c.after_timer(now);
            let silent = now - c.timers.last_recv;
            let allowed = if c.handshake_complete {
                c.timers.idle_timeout
            } else {
                c.timers.handshake_timeout
            };
            let watched = !c.handshake_complete || c.timers.keep_alive_interval is None;
            &&& d.closed is Some <==> watched && silent > allowed
            &&& d.closed matches Some(f) ==> f == if c.handshake_complete {
                QuicFault::IdleTimeout
            } else {
                QuicFault::Timeout
            }
        }),
{
    lemma_probed_stays_open(c, now);
    let t = c.timers;
    if let Some(interval) = t.keep_alive_interval {
        lemma_probed_stays_open(
            ConnView {
                ping_pending: true,
                timers: Timers { keep_alive_next: capped(now + interval), ..t },
                ..c
            },
            now,
        );
    }
}

proof fn lemma_lost_stays_open(
    c: ConnView,
    space: PnSpace,
    frames: Seq<OutgoingView>,
    n: int,
    now: u64,
)
    ensures
        c.after_lost(space, frames, n, now).closed == c.closed,
        c.after_lost(space, frames, n, now).timers == c.timers,
        c.after_lost(space, frames, n, now).ping_pending == c.ping_pending,
    decreases n,
{
    if n > 0 {
        lemma_lost_stays_open(c, space, frames, n - 1, now);
    }
}

proof fn lemma_probed_stays_open(c: ConnView, now: u64)
    ensures
        c.probed(now).closed == c.closed,
        c.probed(now).ping_pending,
        c.probed(now).recovery.pto_due is Some,
{
    if c.has_awaited(PnSpace::Application) {
        let f = c.spaces[2].sent[c.awaited(2, 0)].frames;
        lemma_lost_stays_open(c, PnSpace::Application, f, f.len() as int, now);
    } else if c.has_awaited(PnSpace::Handshake) {
        let f = c.spaces[1].sent[c.awaited(1, 0)].frames;
        lemma_lost_stays_open(c, PnSpace::Handshake, f, f.len() as int, now);
    } else if c.has_awaited(PnSpace::Initial) {
        let f = c.spaces[0].sent[c.awaited(0, 0)].frames;
        lemma_lost_stays_open(c, PnSpace::Initial, f, f.len() as int, now);
    }
}

/// Once the probe timer has run out, and where keep-alives are asked for and one is due, the
/// next packet of the last space with a key carries a PING. Otherwise the timers send none.
pub proof fn lemma_timers_ask_for_answers(c: ConnView, now: u64, max_datagram: u64)
    requires
        c.closed is None,
        c.after_timer(now).closed is None,
    ensures
        ({
            let d = c.after_timer(now);
            let probe = c.recovery.pto_due is Some && now >= c.recovery.pto_due->0;
            let alive = c.handshake_complete && c.timers.keep_alive_interval is Some && now
                >= c.timers.keep_alive_next;
            &&& d.ping_pending == (c.ping_pending || probe || alive)
            &&& d.ping_pending ==> d.next_frames(d.ping_space(), max_datagram).1.last()
                == OutgoingView::Ping && d.next_frames(d.ping_space(), max_datagram).2
                && !d.next_frames(d.ping_space(), max_datagram).0.ping_pending
        }),
{
    let t = c.timers;
    lemma_probed_stays_open(c, now);
    if let Some(interval) = t.keep_alive_interval {
        lemma_probed_stays_open(
            ConnView {
                ping_pending: true,
                timers: Timers { keep_alive_next: capped(now + interval), ..t },
                ..c
            },
            now,
        );
    }
}

// ---------------------------------------------------------------------------
// The window and the clock
// ---------------------------------------------------------------------------

/// Acknowledgements never shrink the window, and in slow start each adds a full packet.
/// Losses never widen it, halve it down to the least window, and do so once in a round trip.
pub proof fn lemma_window(r: Recovery, n: u64, now: u64, later: u64)
    requires
        r.wf(),
    ensures
        r.acknowledged(n).wf(),
        r.acknowledged(n).cwnd >= r.cwnd,
        r.cwnd < r.ssthresh && r.cwnd + 1_200 * n <= u64::MAX ==> r.acknowledged(n).cwnd - r.cwnd
            == 1_200 * n,
        r.acknowledged(n).ssthresh == r.ssthresh,
        r.acknowledged(n).bytes_in_flight == r.bytes_in_flight,
        r.lost(now).wf(),
        r.lost(now).cwnd <= r.cwnd,
        r.recovery_start is None ==> 2 * r.lost(now).cwnd <= r.cwnd || r.lost(now).cwnd == 2_400,
        r.recovery_start is None ==> 2 * r.lost(now).cwnd >= r.cwnd - 1,
        r.recovery_start is None ==> r.lost(now).ssthresh == r.lost(now).cwnd,
        r.recovery_start is None && now <= later && later - now < r.smoothed_rtt ==> r.lost(
            now,
        ).lost(later) == r.lost(now),
        r.lost(now).bytes_in_flight == r.bytes_in_flight,
{
    if r.cwnd >= r.ssthresh {
        assert((MSS * MSS * n) / max_int(r.cwnd as int, MSS as int) >= 0) by {
            vstd::arithmetic::div_mod::lemma_div_pos_is_pos(
                MSS * MSS * n,
                max_int(r.cwnd as int, MSS as int),
            );
        }
    }
}

/// Behind slow start a window's worth of acknowledgements adds a full packet, and no more.
pub proof fn lemma_window_creeps(r: Recovery, n: u64)
    requires
        r.wf(),
        r.cwnd >= r.ssthresh,
        r.cwnd <= 0x1_0000_0000,
        n * 1_200 <= r.cwnd,
    ensures
        r.acknowledged(n).cwnd <= r.cwnd + 1_200,
        n * 1_200 == r.cwnd ==> r.acknowledged(n).cwnd == r.cwnd + 1_200,
{
    let w = r.cwnd as int;
    let x = MSS * MSS * n;
    assert(x == 1_200 * (1_200 * n)) by {
        assert(MSS * MSS == 1_440_000);
        assert(1_440_000 * n == 1_200 * (1_200 * n));
    }
    assert(x / w <= 1_200 && (1_200 * n == w ==> x / w == 1_200)) by (nonlinear_arith)
        requires
            x == 1_200 * (1_200 * n),
            1_200 * n <= w,
            w > 0,
    ;
}

/// The estimate of a round trip moves towards each sample by an eighth of the way and stays
/// between the two, the delay that the peer reports taken off the sample.
pub proof fn lemma_estimate_moves(r: Recovery, sent_at: u64, delay: u64, now: u64)
    requires
        sent_at <= now,
        delay <= 0xffff_ffff,
        r.smoothed_rtt != 333_000_000 || r.rttvar != 166_000_000,
    ensures
        ({
            let t = r.sampled(sent_at, delay, now);
            let seen = now - sent_at;
            let sample = if seen >= 8_000 * delay {
                seen - 8_000 * delay
            } else {
                0
            };
            let gap = if r.smoothed_rtt >= sample {
                r.smoothed_rtt - sample
            } else {
                sample - r.smoothed_rtt
            };
            &&& t.latest_rtt == seen
            &&& sample <= r.smoothed_rtt ==> sample <= t.smoothed_rtt <= r.smoothed_rtt
            &&& sample >= r.smoothed_rtt ==> r.smoothed_rtt <= t.smoothed_rtt <= sample
            &&& 8 * t.smoothed_rtt <= 7 * r.smoothed_rtt + sample < 8 * t.smoothed_rtt + 8
            &&& 4 * t.rttvar <= 3 * r.rttvar + gap < 4 * t.rttvar + 4
            &&& t.cwnd == r.cwnd && t.bytes_in_flight == r.bytes_in_flight
        }),
{
}

/// The first sample is the estimate, and half of it its variation.
pub proof fn lemma_first_estimate(sent_at: u64, delay: u64, now: u64)
    requires
        sent_at <= now,
    ensures
        ({
            let t = Recovery::initial().sampled(sent_at, delay, now);
            t.smoothed_rtt == now - sent_at && t.rttvar == (now - sent_at) / 2 && t.latest_rtt
                == now - sent_at
        }),
        Recovery::initial().cwnd == 10 * 1_200,
        Recovery::initial().bytes_in_flight == 0,
        Recovery::initial().cwnd < Recovery::initial().ssthresh,
        Recovery::initial().pto_due is None,
{
}

/// A probe waits for a round trip, four times its variation and the peer's delay, twice as
/// long after each probe that went unanswered.
pub proof fn lemma_probe_backs_off(r: Recovery, now: u64)
    requires
        r.smoothed_rtt <= 0xffff_ffff_ffff,
        r.rttvar <= 0xffff_ffff_ffff,
    ensures
        r.pto_count == 0 && r.rttvar >= 250_000 ==> r.period() == r.smoothed_rtt + 4 * r.rttvar
            + 25_000_000,
        r.pto_count == 0 && r.rttvar < 250_000 ==> r.period() == r.smoothed_rtt + 26_000_000,
        r.pto_count < 10 ==> r.probed(now).period() == 2 * r.period(),
        r.probed(now).pto_due == Some(capped(now + r.probed(now).period())),
        r.sent(100, now).pto_due == Some(capped(now + r.period())),
        r.sent(100, now).bytes_in_flight == capped(r.bytes_in_flight + 100),
{
    reveal_with_fuel(super::recovery::backoff, 11);
    let base = r.smoothed_rtt + max_int(r.rttvar * 4, MILLI as int) + MAX_ACK_DELAY;
    let n = r.pto_count as nat;
    if n < 10 {
        let f = super::recovery::backoff(n) as int;
        assert(super::recovery::backoff(n + 1) == 2 * f);
        assert(f <= 1024) by {
            assert(n == 0 || n == 1 || n == 2 || n == 3 || n == 4 || n == 5 || n == 6 || n == 7 || n
                == 8 || n == 9);
        }
        assert(base * (2 * f) == 2 * (base * f)) by (nonlinear_arith);
        assert(base * f <= base * 1024) by (nonlinear_arith)
            requires
                f <= 1024,
                base >= 0,
        ;
    }
    assert(base * 1 == base);
}

/// A packet counts as lost once nine eighths of a round trip have gone by without word of
/// it, and not before.
pub proof fn lemma_loss_takes_time(r: Recovery, sent_at: u64, now: u64)
    requires
        sent_at <= now,
    ensures
        ({
            let trip = if r.smoothed_rtt >= r.latest_rtt {
                r.smoothed_rtt as int
            } else {
                r.latest_rtt as int
            };
            r.overdue(sent_at, now) <==> 8 * (now - sent_at - trip) > trip
        }),
        forall|earlier: u64|
            earlier <= sent_at && r.overdue(sent_at, now) ==> #[trigger] r.overdue(earlier, now),
{
}

} // verus!
