//! What an ACK frame leaves to be sent: every byte of a lost frame that no frame was
//! acknowledged for.

use super::ack::intervals;
use super::frame::OutgoingView;
use super::space::{
    lemma_crypto_acked_outstanding, lemma_lost_crypto_is_sent_again, sorted, PnSpace, SpaceView,
};
use super::streams::{lemma_acked_outstanding, lemma_lost_is_sent_again, StreamView};
use super::transport::{stream_from, ConnView};
use vstd::prelude::*;

verus! {

/// Whether a frame carries a byte of a stream.
pub open spec fn covers_stream(f: OutgoingView, id: u64, at: int) -> bool {
    f matches OutgoingView::Stream { stream_id, offset, data, fin } && stream_id == id && offset
        <= at < offset + data.len()
}

/// Whether a frame carries a CRYPTO byte.
pub open spec fn covers_crypto(f: OutgoingView, at: int) -> bool {
    f matches OutgoingView::Crypto { offset, data } && offset <= at < offset + data.len()
}

/// Streams that are well-formed and told apart by their identifiers.
spec fn sound(streams: Seq<(u64, StreamView)>) -> bool {
    &&& forall|i: int| 0 <= i < streams.len() ==> (#[trigger] streams[i]).1.wf()
    &&& forall|i: int, j: int|
        0 <= i < j < streams.len() ==> (#[trigger] streams[i]).0 != (#[trigger] streams[j]).0
}

proof fn lemma_found(streams: Seq<(u64, StreamView)>, i: int, from: int)
    requires
        sound(streams),
        0 <= from <= i < streams.len(),
    ensures
        stream_from(streams, streams[i].0, from) == i,
    decreases i - from,
{
    if from < i {
        assert(streams[from].0 != streams[i].0);
        lemma_found(streams, i, from + 1);
    }
}

proof fn lemma_found_range(streams: Seq<(u64, StreamView)>, id: u64, from: int)
    requires
        0 <= from <= streams.len(),
    ensures
        from <= stream_from(streams, id, from) <= streams.len(),
        stream_from(streams, id, from) < streams.len() ==> streams[stream_from(
            streams,
            id,
            from,
        )].0 == id,
    decreases streams.len() - from,
{
    if from < streams.len() && streams[from].0 != id {
        lemma_found_range(streams, id, from + 1);
    }
}

proof fn lemma_sound_update(streams: Seq<(u64, StreamView)>, i: int, s: StreamView)
    requires
        sound(streams),
        0 <= i < streams.len(),
        s.wf(),
    ensures
        sound(streams.update(i, (streams[i].0, s))),
{
    let next = streams.update(i, (streams[i].0, s));
    assert forall|j: int| 0 <= j < next.len() implies (#[trigger] next[j]).1.wf() by {
        if j != i {
            assert(next[j] == streams[j]);
        }
    }
    assert forall|j: int, k: int| 0 <= j < k < next.len() implies (#[trigger] next[j]).0 != (
    #[trigger] next[k]).0 by {
        assert(streams[j].0 != streams[k].0);
    }
}

/// What a byte of a stream is before and behind a step: who has the stream, whether the byte
/// is outstanding, and which it is.
spec fn keeps_stream(a: ConnView, b: ConnView, i: int, at: int) -> bool {
    &&& b.streams.len() == a.streams.len()
    &&& sound(b.streams)
    &&& b.streams[i].0 == a.streams[i].0
    &&& b.streams[i].1.outstanding(at) ==> b.streams[i].1.byte(at) == a.streams[i].1.byte(at)
}

proof fn lemma_acked_step(c: ConnView, space: PnSpace, f: OutgoingView, i: int, at: int)
    requires
        sound(c.streams),
        0 <= i < c.streams.len(),
    ensures
        ({
            let d = c.on_acked_frame(space, f);
            &&& keeps_stream(c, d, i, at)
            &&& d.streams[i].1.outstanding(at) == (c.streams[i].1.outstanding(at)
                && !covers_stream(f, c.streams[i].0, at))
        }),
{
    if let OutgoingView::Stream { stream_id, offset, data, fin } = f {
        let k = c.stream(stream_id);
        lemma_found_range(c.streams, stream_id, 0);
        lemma_found(c.streams, i, 0);
        if k < c.streams.len() {
            let s = c.streams[k].1;
            assert(c.streams[k].1.wf());
            lemma_acked_outstanding(s, offset, data.len(), fin, at);
            lemma_sound_update(c.streams, k, s.acked(offset, data.len(), fin));
        }
    }
}

proof fn lemma_lost_step(c: ConnView, space: PnSpace, f: OutgoingView, now: u64, i: int, at: int)
    requires
        sound(c.streams),
        0 <= i < c.streams.len(),
    ensures
        ({
            let d = c.on_lost_frame(space, f, now);
            &&& keeps_stream(c, d, i, at)
            &&& d.streams[i].1.outstanding(at) == c.streams[i].1.outstanding(at)
            &&& d.streams[i].1.sent_through <= c.streams[i].1.sent_through
            &&& c.streams[i].1.outstanding(at) && covers_stream(f, c.streams[i].0, at)
                ==> d.streams[i].1.sent_through <= at
        }),
{
    if let OutgoingView::Stream { stream_id, offset, data, fin } = f {
        let k = c.stream(stream_id);
        lemma_found_range(c.streams, stream_id, 0);
        lemma_found(c.streams, i, 0);
        if k < c.streams.len() {
            let s = c.streams[k].1;
            assert(c.streams[k].1.wf());
            if s.outstanding(at) && offset <= at < offset + data.len() {
                lemma_lost_is_sent_again(s, offset, data.len(), fin, at);
            }
            lemma_sound_update(c.streams, k, s.lost(offset, fin));
        }
    }
}

proof fn lemma_acked_all(
    c: ConnView,
    space: PnSpace,
    frames: Seq<OutgoingView>,
    n: int,
    i: int,
    at: int,
)
    requires
        sound(c.streams),
        0 <= i < c.streams.len(),
        0 <= n <= frames.len(),
    ensures
        ({
            let d = c.after_acked(space, frames, n);
            &&& keeps_stream(c, d, i, at)
            &&& d.streams[i].1.outstanding(at) == (c.streams[i].1.outstanding(at) && forall|k: int|
                0 <= k < n ==> !covers_stream(#[trigger] frames[k], c.streams[i].0, at))
        }),
    decreases n,
{
    if n > 0 {
        lemma_acked_all(c, space, frames, n - 1, i, at);
        let d = c.after_acked(space, frames, n - 1);
        lemma_acked_step(d, space, frames[n - 1], i, at);
    }
}

proof fn lemma_lost_all(
    c: ConnView,
    space: PnSpace,
    frames: Seq<OutgoingView>,
    n: int,
    now: u64,
    i: int,
    at: int,
)
    requires
        sound(c.streams),
        0 <= i < c.streams.len(),
        0 <= n <= frames.len(),
    ensures
        ({
            let d = c.after_lost(space, frames, n, now);
            &&& keeps_stream(c, d, i, at)
            &&& d.streams[i].1.outstanding(at) == c.streams[i].1.outstanding(at)
            &&& d.streams[i].1.sent_through <= c.streams[i].1.sent_through
            &&& forall|k: int|
                0 <= k < n && c.streams[i].1.outstanding(at) && covers_stream(
                    #[trigger] frames[k],
                    c.streams[i].0,
                    at,
                ) ==> d.streams[i].1.sent_through <= at
        }),
    decreases n,
{
    if n > 0 {
        lemma_lost_all(c, space, frames, n - 1, now, i, at);
        let d = c.after_lost(space, frames, n - 1, now);
        lemma_lost_step(d, space, frames[n - 1], now, i, at);
    }
}

/// Nothing that was written is lost for good: behind an ACK frame, a byte of a stream is
/// outstanding exactly where it was and no acknowledged frame carries it, it is still the
/// byte that was written, and it waits to be sent where a frame that carries it was lost.
pub proof fn lemma_lost_stream_bytes_wait(
    c: ConnView,
    space: PnSpace,
    largest: u64,
    delay: u64,
    ranges: Seq<(u64, u64)>,
    now: u64,
    i: int,
    at: int,
)
    requires
        c.wf(),
        0 <= i < c.streams.len(),
    ensures
        ({
            let named = intervals(largest, ranges);
            let s = sorted(c.spaces[space.place()].sent, named, c.recovery, now);
            let d = c.on_ack(space, largest, delay, ranges, now);
            let id = c.streams[i].0;
            &&& d.streams.len() == c.streams.len()
            &&& d.streams[i].0 == id
            &&& d.streams[i].1.wf()
            &&& d.streams[i].1.outstanding(at) == (c.streams[i].1.outstanding(at) && forall|k: int|
                0 <= k < s.acked.len() ==> !covers_stream(#[trigger] s.acked[k], id, at))
            &&& d.streams[i].1.outstanding(at) ==> d.streams[i].1.byte(at) == c.streams[i].1.byte(at)
            &&& forall|k: int|
                0 <= k < s.lost.len() && d.streams[i].1.outstanding(at) && covers_stream(
                    #[trigger] s.lost[k],
                    id,
                    at,
                ) ==> d.streams[i].1.sent_through <= at && d.streams[i].1.has_send_data()
        }),
{
    assert(sound(c.streams)) by {
        assert forall|j: int| 0 <= j < c.streams.len() implies (#[trigger] c.streams[j]).1.wf() by {}
    }
    let p = space.place();
    let named = intervals(largest, ranges);
    let s = sorted(c.spaces[p].sent, named, c.recovery, now);
    let taken = ConnView {
        recovery: super::recovery::Recovery { bytes_in_flight: s.in_flight, ..c.recovery },
        ..c.with_space(p, SpaceView { sent: s.kept, ..c.spaces[p] })
    };
    assert(taken.streams == c.streams);
    let acked = taken.after_acked(space, s.acked, s.acked.len() as int);
    lemma_acked_all(taken, space, s.acked, s.acked.len() as int, i, at);
    let lost = acked.after_lost(space, s.lost, s.lost.len() as int, now);
    lemma_lost_all(acked, space, s.lost, s.lost.len() as int, now, i, at);
    let d = c.on_ack(space, largest, delay, ranges, now);
    assert(d.streams == lost.streams);
    assert(lost.streams[i].1.wf());
}

/// What a CRYPTO byte is before and behind a step.
spec fn keeps_crypto(a: ConnView, b: ConnView, p: int, at: int) -> bool {
    &&& b.spaces.len() == a.spaces.len()
    &&& b.spaces[p].wf()
    &&& b.spaces[p].crypto_outstanding(at) ==> b.spaces[p].crypto_byte(at)
        == a.spaces[p].crypto_byte(at)
}

proof fn lemma_crypto_acked_all(
    c: ConnView,
    space: PnSpace,
    frames: Seq<OutgoingView>,
    n: int,
    at: int,
)
    requires
        c.spaces.len() == 3,
        c.spaces[space.place()].wf(),
        0 <= n <= frames.len(),
    ensures
        ({
            let p = space.place();
            let d = c.after_acked(space, frames, n);
            &&& keeps_crypto(c, d, p, at)
            &&& d.spaces[p].crypto_outstanding(at) == (c.spaces[p].crypto_outstanding(at)
                && forall|k: int| 0 <= k < n ==> !covers_crypto(#[trigger] frames[k], at))
        }),
    decreases n,
{
    if n > 0 {
        lemma_crypto_acked_all(c, space, frames, n - 1, at);
        let p = space.place();
        let d = c.after_acked(space, frames, n - 1);
        if let OutgoingView::Crypto { offset, data } = frames[n - 1] {
            lemma_crypto_acked_outstanding(d.spaces[p], offset, data.len(), at);
        }
    }
}

proof fn lemma_crypto_lost_all(
    c: ConnView,
    space: PnSpace,
    frames: Seq<OutgoingView>,
    n: int,
    now: u64,
    at: int,
)
    requires
        c.spaces.len() == 3,
        c.spaces[space.place()].wf(),
        0 <= n <= frames.len(),
    ensures
        ({
            let p = space.place();
            let d = c.after_lost(space, frames, n, now);
            &&& keeps_crypto(c, d, p, at)
            &&& d.spaces[p].crypto_outstanding(at) == c.spaces[p].crypto_outstanding(at)
            &&& d.spaces[p].crypto_sent <= c.spaces[p].crypto_sent
            &&& forall|k: int|
                0 <= k < n && c.spaces[p].crypto_outstanding(at) && covers_crypto(
                    #[trigger] frames[k],
                    at,
                ) ==> d.spaces[p].crypto_sent <= at
        }),
    decreases n,
{
    if n > 0 {
        lemma_crypto_lost_all(c, space, frames, n - 1, now, at);
        let p = space.place();
        let d = c.after_lost(space, frames, n - 1, now);
        if let OutgoingView::Crypto { offset, data } = frames[n - 1] {
            if d.spaces[p].crypto_outstanding(at) && offset <= at < offset + data.len() {
                lemma_lost_crypto_is_sent_again(d.spaces[p], offset, data.len(), at);
            }
        }
    }
}

/// The same for CRYPTO bytes: behind an ACK frame of a space, a byte is outstanding exactly
/// where it was and no acknowledged frame carries it, it is still the byte that was written,
/// and it waits to be sent where a frame that carries it was lost.
pub proof fn lemma_lost_crypto_bytes_wait(
    c: ConnView,
    space: PnSpace,
    largest: u64,
    delay: u64,
    ranges: Seq<(u64, u64)>,
    now: u64,
    at: int,
)
    requires
        c.wf(),
    ensures
        ({
            let p = space.place();
            let named = intervals(largest, ranges);
            let s = sorted(c.spaces[p].sent, named, c.recovery, now);
            let d = c.on_ack(space, largest, delay, ranges, now);
            &&& d.spaces[p].wf()
            &&& d.spaces[p].crypto_outstanding(at) == (c.spaces[p].crypto_outstanding(at)
                && forall|k: int|
                0 <= k < s.acked.len() ==> !covers_crypto(#[trigger] s.acked[k], at))
            &&& d.spaces[p].crypto_outstanding(at) ==> d.spaces[p].crypto_byte(at)
                == c.spaces[p].crypto_byte(at)
            &&& forall|k: int|
                0 <= k < s.lost.len() && d.spaces[p].crypto_outstanding(at) && covers_crypto(
                    #[trigger] s.lost[k],
                    at,
                ) ==> d.spaces[p].crypto_sent <= at < d.spaces[p].crypto_written
        }),
{
    let p = space.place();
    assert(c.spaces[p].wf());
    let named = intervals(largest, ranges);
    let s = sorted(c.spaces[p].sent, named, c.recovery, now);
    let taken = ConnView {
        recovery: super::recovery::Recovery { bytes_in_flight: s.in_flight, ..c.recovery },
        ..c.with_space(p, SpaceView { sent: s.kept, ..c.spaces[p] })
    };
    let acked = taken.after_acked(space, s.acked, s.acked.len() as int);
    lemma_crypto_acked_all(taken, space, s.acked, s.acked.len() as int, at);
    let lost = acked.after_lost(space, s.lost, s.lost.len() as int, now);
    lemma_crypto_lost_all(acked, space, s.lost, s.lost.len() as int, now, at);
    let d = c.on_ack(space, largest, delay, ranges, now);
    assert(d.spaces == lost.spaces);
}

} // verus!
