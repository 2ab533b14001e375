//! What packets bring about on both ways: what is sent and kept account of, what an
//! acknowledgement settles, which packets are taken and which are passed over.

use super::ack::{
    ack_ranges, ascending, intervals, intervals_below, lemma_with_number, names, newest,
    ranges_below, run_below, with_number, MAX_ACK_QUEUE, MAX_ACK_RANGES,
};
use super::config::ClientConfig;
use super::error::QuicFault;
use super::frame::{frame_of, OutgoingView};
use super::params::{lemma_varint_round_trip, varint_bytes, ParamsView};
use super::protect::PacketKeyView;
use super::recovery::{capped, minus, Recovery};
use super::space::{sorted, PnSpace, SentView, SpaceView};
use super::tls13::HandshakeView;
use super::transport::{
    advertised, retry_of, retry_pseudo, started, ConnView, RetryView, Timers, RETRY_KEY,
    RETRY_NONCE,
};
use crate::crypto::gcm_opened;
use crate::wire::be_value;
use vstd::prelude::*;
use vstd::string::*;

verus! {

// ---------------------------------------------------------------------------
// Sending
// ---------------------------------------------------------------------------

/// A packet that goes out takes the next number of its space, and none is used twice. One
/// that asks for an answer is remembered with its frames, its time and its size until word
/// of it comes, and counts as in flight. Another leaves no trace. No other space changes.
pub proof fn lemma_packet_accounted(
    c: ConnView,
    space: PnSpace,
    frames: Seq<OutgoingView>,
    asks: bool,
    limit: u64,
    now: u64,
    k: int,
)
    requires
        c.spaces.len() == 3,
        0 <= k < 3,
    ensures
        ({
            let (d, datagram) = c.with_packet(space, frames, asks, limit, now);
            let i = space.place();
            let s = c.spaces[i];
            let t = d.spaces[i];
            &&& datagram is None ==> d == c
            &&& datagram is Some ==> {
                &&& t.next_pn == s.next_pn + 1
                &&& asks ==> {
                    &&& t.sent.len() == s.sent.len() + 1
                    &&& t.sent.drop_last() == s.sent
                    &&& t.sent.last().pn == s.next_pn
                    &&& t.sent.last().frames == frames
                    &&& t.sent.last().time == now
                    &&& t.sent.last().in_flight && t.sent.last().ack_eliciting
                    &&& t.sent.last().size <= limit
                    &&& d.recovery.bytes_in_flight == capped(
                        c.recovery.bytes_in_flight + t.sent.last().size,
                    )
                    &&& d.recovery.pto_due is Some
                }
                &&& !asks ==> t.sent == s.sent && d.recovery == c.recovery
                &&& t.key == s.key && t.write_key == s.write_key && t.ack_queue == s.ack_queue
                &&& t.crypto_send == s.crypto_send && t.crypto_recv == s.crypto_recv
                &&& t.crypto_acked == s.crypto_acked && t.crypto_written == s.crypto_written
                &&& s.crypto_sent <= s.crypto_written ==> s.crypto_sent <= t.crypto_sent
                    <= t.crypto_written
            }
            &&& k != i ==> d.spaces[k] == c.spaces[k]
            &&& d.streams == c.streams && d.limits == c.limits && d.tls == c.tls
            &&& s.write_key is None ==> datagram is None
        }),
{
    let (d, datagram) = c.with_packet(space, frames, asks, limit, now);
    let i = space.place();
    if datagram is Some && asks {
        assert(d.spaces[i].sent.drop_last() =~= c.spaces[i].sent);
    }
}

/// Datagrams of the application go out one by one, the oldest first, before other frames,
/// while the window leaves room for a packet. Where it leaves none, nothing goes out.
pub proof fn lemma_datagrams_first(c: ConnView, limit: u64, out: Seq<Seq<u8>>, now: u64)
    ensures
        ({
            let (d, all, more) = c.round(PnSpace::Application, limit, out, now);
            &&& c.recovery.bytes_in_flight + 40 > c.recovery.cwnd ==> d == c && all == out && !more
            &&& c.recovery.bytes_in_flight + 40 <= c.recovery.cwnd && c.datagram_tx.len() > 0
                && c.datagram_tx[0].len() + 48 <= limit ==> {
                &&& d.datagram_tx == c.datagram_tx.skip(1)
                &&& c.with_packet(
                    PnSpace::Application,
                    seq![OutgoingView::Datagram(c.datagram_tx[0])],
                    false,
                    limit,
                    now,
                ).1 matches Some(packet) ==> all == out.push(packet)
            }
        }),
{
    let first = ConnView { datagram_tx: c.datagram_tx.skip(1), ..c };
    let f = seq![OutgoingView::Datagram(c.datagram_tx[0])];
    let payload = c.padded(PnSpace::Application, f);
    assert(first.padded(PnSpace::Application, f) == payload);
    assert(first.next_header(PnSpace::Application, payload.len()) == c.next_header(
        PnSpace::Application,
        payload.len(),
    ));
}

/// What was received is acknowledged once: the next packet of the space that can be sent
/// acknowledges it, and the one after that does not unless more is received.
pub proof fn lemma_acknowledged_once(c: ConnView, space: PnSpace, limit: u64, now: u64)
    requires
        c.spaces.len() == 3,
        c.spaces[space.place()].write_key is Some,
        c.spaces[space.place()].ack_pending,
        c.spaces[space.place()].ack_queue.len() > 0,
    ensures
        ({
            let s = c.spaces[space.place()];
            let quiet = c.with_space(space.place(), SpaceView { ack_pending: false, ..s });
            let ack = OutgoingView::Ack {
                largest: s.ack_queue.last(),
                ranges: ack_ranges(s.ack_queue),
            };
            let (d, packet) = quiet.with_packet(space, seq![ack], false, limit, now);
            let none = Seq::<Seq<u8>>::empty();
            &&& !d.spaces[space.place()].ack_pending
            &&& packet matches Some(p) ==> c.flushed(space, limit, none, now) == d.rounds(
                space,
                limit,
                seq![p],
                now,
            )
        }),
{
    let none = Seq::<Seq<u8>>::empty();
    let s = c.spaces[space.place()];
    let quiet = c.with_space(space.place(), SpaceView { ack_pending: false, ..s });
    let ack = OutgoingView::Ack { largest: s.ack_queue.last(), ranges: ack_ranges(s.ack_queue) };
    let (d, packet) = quiet.with_packet(space, seq![ack], false, limit, now);
    if let Some(p) = packet {
        assert(none.push(p) =~= seq![p]);
    }
}

/// No datagram is larger than what the peer takes, nor than 1200 bytes, which every path
/// carries.
pub proof fn lemma_datagram_size(c: ConnView)
    ensures
        c.max_datagram() == 1_200,
{
}

// ---------------------------------------------------------------------------
// Acknowledgements
// ---------------------------------------------------------------------------

/// Every packet that waits for word is settled in one of three ways: its frames arrived
/// where the acknowledgement names it; they are lost where it is in flight and long
/// overdue; and otherwise it goes on waiting. What was settled is no longer in flight.
pub proof fn lemma_packets_settled(
    sent: Seq<SentView>,
    named: Seq<(u64, u64)>,
    r: Recovery,
    now: u64,
    k: int,
)
    requires
        0 <= k < sent.len(),
    ensures
        ({
            let s = sorted(sent, named, r, now);
            let p = sent[k];
            let lost = !names(named, p.pn) && p.in_flight && r.overdue(p.time, now);
            &&& names(named, p.pn) ==> forall|f: OutgoingView|
                p.frames.contains(f) ==> #[trigger] s.acked.contains(f)
            &&& lost ==> forall|f: OutgoingView|
                p.frames.contains(f) ==> #[trigger] s.lost.contains(f)
            &&& !names(named, p.pn) && !lost ==> s.kept.contains(p)
            &&& s.in_flight <= r.bytes_in_flight
            &&& names(named, sent.last().pn) && sent.last().ack_eliciting ==> s.newest == Some(
                sent.last().time,
            )
        }),
    decreases sent.len(),
{
    let s = sorted(sent, named, r, now);
    let before = sent.drop_last();
    let b = sorted(before, named, r, now);
    let p = sent[k];
    lemma_flight_shrinks(sent, named, r, now);
    if k < before.len() {
        assert(before[k] == p);
        lemma_packets_settled(before, named, r, now, k);
        assert forall|f: OutgoingView| b.acked.contains(f) implies #[trigger] s.acked.contains(
            f,
        ) by {
            let j = choose|j: int| 0 <= j < b.acked.len() && b.acked[j] == f;
            assert(s.acked[j] == f);
        }
        assert forall|f: OutgoingView| b.lost.contains(f) implies #[trigger] s.lost.contains(f) by {
            let j = choose|j: int| 0 <= j < b.lost.len() && b.lost[j] == f;
            assert(s.lost[j] == f);
        }
        if b.kept.contains(p) {
            let j = choose|j: int| 0 <= j < b.kept.len() && b.kept[j] == p;
            assert(s.kept[j] == p);
        }
    } else {
        assert(p == sent.last());
        if names(named, p.pn) {
            assert forall|f: OutgoingView| p.frames.contains(f) implies #[trigger] s.acked.contains(
                f,
            ) by {
                let j = choose|j: int| 0 <= j < p.frames.len() && p.frames[j] == f;
                assert(s.acked[b.acked.len() + j] == f);
            }
        } else if p.in_flight && r.overdue(p.time, now) {
            assert forall|f: OutgoingView| p.frames.contains(f) implies #[trigger] s.lost.contains(
                f,
            ) by {
                let j = choose|j: int| 0 <= j < p.frames.len() && p.frames[j] == f;
                assert(s.lost[b.lost.len() + j] == f);
            }
        } else {
            assert(s.kept.last() == p);
        }
    }
}

proof fn lemma_flight_shrinks(
    sent: Seq<SentView>,
    named: Seq<(u64, u64)>,
    r: Recovery,
    now: u64,
)
    ensures
        sorted(sent, named, r, now).in_flight <= r.bytes_in_flight,
    decreases sent.len(),
{
    if sent.len() > 0 {
        lemma_flight_shrinks(sent.drop_last(), named, r, now);
    }
}

/// Nothing is settled that was not waiting, and nothing is kept that was settled.
pub proof fn lemma_only_sent_is_settled(
    sent: Seq<SentView>,
    named: Seq<(u64, u64)>,
    r: Recovery,
    now: u64,
    f: OutgoingView,
    p: SentView,
)
    ensures
        ({
            let s = sorted(sent, named, r, now);
            &&& s.acked.contains(f) ==> exists|k: int|
                0 <= k < sent.len() && names(named, (#[trigger] sent[k]).pn)
                    && sent[k].frames.contains(f)
            &&& s.lost.contains(f) ==> exists|k: int|
                0 <= k < sent.len() && !names(named, (#[trigger] sent[k]).pn) && r.overdue(
                    sent[k].time,
                    now,
                ) && sent[k].frames.contains(f)
            &&& s.kept.contains(p) ==> sent.contains(p) && !names(named, p.pn) && !(p.in_flight
                && r.overdue(p.time, now))
        }),
    decreases sent.len(),
{
    if sent.len() > 0 {
        let s = sorted(sent, named, r, now);
        let before = sent.drop_last();
        let b = sorted(before, named, r, now);
        let last = sent.last();
        let n = sent.len() - 1;
        lemma_only_sent_is_settled(before, named, r, now, f, p);
        assert(sent[n] == last);
        if s.acked.contains(f) {
            let j = choose|j: int| 0 <= j < s.acked.len() && s.acked[j] == f;
            if j < b.acked.len() {
                assert(b.acked[j] == f);
                let k = choose|k: int|
                    0 <= k < before.len() && names(named, (#[trigger] before[k]).pn)
                        && before[k].frames.contains(f);
                assert(sent[k] == before[k]);
            } else {
                assert(last.frames[j - b.acked.len()] == f);
            }
        }
        if s.lost.contains(f) {
            let j = choose|j: int| 0 <= j < s.lost.len() && s.lost[j] == f;
            if j < b.lost.len() {
                assert(b.lost[j] == f);
                let k = choose|k: int|
                    0 <= k < before.len() && !names(named, (#[trigger] before[k]).pn) && r.overdue(
                        before[k].time,
                        now,
                    ) && before[k].frames.contains(f);
                assert(sent[k] == before[k]);
            } else {
                assert(last.frames[j - b.lost.len()] == f);
            }
        }
        if s.kept.contains(p) {
            let j = choose|j: int| 0 <= j < s.kept.len() && s.kept[j] == p;
            if j < b.kept.len() {
                assert(b.kept[j] == p);
                let k = choose|k: int| 0 <= k < before.len() && before[k] == p;
                assert(sent[k] == p);
            }
        }
    }
}

/// An acknowledgement stops the probe timer and starts its count anew, and what it names is
/// no longer waited for.
pub proof fn lemma_ack_quiets_probes(
    c: ConnView,
    space: PnSpace,
    largest: u64,
    delay: u64,
    ranges: Seq<(u64, u64)>,
    now: u64,
    p: SentView,
)
    requires
        c.spaces.len() == 3,
    ensures
        ({
            let d = c.on_ack(space, largest, delay, ranges, now);
            &&& d.recovery.pto_count == 0
            &&& d.recovery.pto_due is None
            &&& d.recovery.bytes_in_flight <= c.recovery.bytes_in_flight
            &&& d.spaces.len() == 3
            &&& d.spaces[space.place()].sent.contains(p) ==> c.spaces[space.place()].sent.contains(
                p,
            ) && !names(intervals(largest, ranges), p.pn)
        }),
{
    let i = space.place();
    let named = intervals(largest, ranges);
    let s = sorted(c.spaces[i].sent, named, c.recovery, now);
    let taken = ConnView {
        recovery: Recovery { bytes_in_flight: s.in_flight, ..c.recovery },
        ..c.with_space(i, SpaceView { sent: s.kept, ..c.spaces[i] })
    };
    lemma_flight_shrinks(c.spaces[i].sent, named, c.recovery, now);
    lemma_acked_keeps_sent(taken, space, s.acked, s.acked.len() as int);
    let a = taken.after_acked(space, s.acked, s.acked.len() as int);
    lemma_lost_keeps_sent(a, space, s.lost, s.lost.len() as int, now);
    lemma_only_sent_is_settled(
        c.spaces[i].sent,
        named,
        c.recovery,
        now,
        OutgoingView::Ping,
        p,
    );
}

proof fn lemma_acked_keeps_sent(c: ConnView, space: PnSpace, frames: Seq<OutgoingView>, n: int)
    requires
        c.spaces.len() == 3,
    ensures
        c.after_acked(space, frames, n).spaces.len() == 3,
        c.after_acked(space, frames, n).spaces[space.place()].sent == c.spaces[space.place()].sent,
        c.after_acked(space, frames, n).recovery == c.recovery,
    decreases n,
{
    if n > 0 {
        lemma_acked_keeps_sent(c, space, frames, n - 1);
    }
}

proof fn lemma_lost_keeps_sent(
    c: ConnView,
    space: PnSpace,
    frames: Seq<OutgoingView>,
    n: int,
    now: u64,
)
    requires
        c.spaces.len() == 3,
    ensures
        c.after_lost(space, frames, n, now).spaces.len() == 3,
        c.after_lost(space, frames, n, now).spaces[space.place()].sent
            == c.spaces[space.place()].sent,
        c.after_lost(space, frames, n, now).recovery.bytes_in_flight == c.recovery.bytes_in_flight,
    decreases n,
{
    if n > 0 {
        lemma_lost_keeps_sent(c, space, frames, n - 1, now);
    }
}

/// A limit whose frame was lost is told again, as it is by then.
pub proof fn lemma_lost_limit_is_told_again(
    c: ConnView,
    space: PnSpace,
    max: u64,
    now: u64,
    i: int,
)
    requires
        super::effects::distinct(c.streams),
    ensures
        ({
            let d = c.on_lost_frame(space, OutgoingView::MaxData(max), now);
            let told = OutgoingView::MaxStreamData { stream_id: c.streams[i].0, max };
            let e = c.on_lost_frame(space, told, now);
            &&& d.pending_max_data == c.pending_max_data.push(c.limits.max_data_advertised)
            &&& d.pending_max_stream_data == c.pending_max_stream_data
            &&& d.streams == c.streams
            &&& 0 <= i < c.streams.len() ==> e.pending_max_stream_data
                == c.pending_max_stream_data.push((c.streams[i].0, c.streams[i].1.peer_send_limit))
                && e.pending_max_data == c.pending_max_data && e.streams == c.streams
        }),
{
    super::effects::lemma_stream_found(c, c.streams[i].0, i);
}

// ---------------------------------------------------------------------------
// What an acknowledgement names
// ---------------------------------------------------------------------------

/// How many runs of numbers without a gap there are up to an index.
pub open spec fn runs(q: Seq<u64>, i: int) -> nat
    decreases i + 1,
{
    if i < 0 {
        0
    } else if i > 0 && q[i - 1] + 1 == q[i] {
        runs(q, i - 1)
    } else {
        runs(q, i - 1) + 1
    }
}

proof fn lemma_run(q: Seq<u64>, i: int)
    requires
        ascending(q),
        0 <= i < q.len(),
    ensures
        run_below(q, i) <= i,
        runs(q, i) == 1 + runs(q, i - run_below(q, i) - 1),
        forall|j: int| i - run_below(q, i) <= j <= i ==> q[i] - #[trigger] q[j] == i - j,
        q[i] >= run_below(q, i),
        i - run_below(q, i) > 0 ==> q[i - run_below(q, i) - 1] + 1 < q[i - run_below(q, i)],
    decreases i,
{
    if 0 < i && q[i - 1] + 1 == q[i] {
        lemma_run(q, i - 1);
        let n = run_below(q, i);
        assert(n == 1 + run_below(q, i - 1));
        assert forall|j: int| i - n <= j <= i implies q[i] - #[trigger] q[j] == i - j by {
            if j < i {
                assert(q[i - 1] - q[j] == i - 1 - j);
            }
        }
    } else if 0 < i {
        assert(q[i - 1] < q[i]);
    }
}

/// The intervals that ranges below an index stand for hold every number up to that index.
proof fn lemma_below_named(q: Seq<u64>, i: int, n: nat, low: u64, k: int)
    requires
        ascending(q),
        0 <= k <= i < q.len() - 1,
        low == q[i + 1],
        q[i] + 1 < q[i + 1],
        runs(q, i) <= n,
    ensures
        names(intervals_below(low, ranges_below(q, i, n)), q[k]),
    decreases n,
{
    let run = run_below(q, i);
    lemma_run(q, i);
    let gap = (q[i + 1] - q[i] - 2) as u64;
    let rest = ranges_below(q, i - run - 1, (n - 1) as nat);
    let all = ranges_below(q, i, n);
    assert(all =~= seq![(gap, run as u64)] + rest);
    assert(all.skip(1) =~= rest);
    let high = minus(minus(low, gap), 2);
    assert(high == q[i]);
    let next = minus(high, run as u64);
    assert(next == q[i - run]) by {
        assert(q[i] - q[i - run] == run);
    }
    let inner = intervals_below(next, rest);
    let list = intervals_below(low, all);
    assert(list =~= seq![(next, high)] + inner);
    if k >= i - run {
        assert(q[i] - q[k] == i - k);
        assert(list[0].0 <= q[k] <= list[0].1);
    } else {
        lemma_below_named(q, i - run - 1, (n - 1) as nat, next, k);
        let m = choose|m: int|
            0 <= m < inner.len() && (#[trigger] inner[m]).0 <= q[k] <= inner[m].1;
        assert(list[m + 1] == inner[m]);
    }
}

/// An acknowledgement names every number that was received, where the numbers stand in no
/// more runs than a frame has ranges.
pub proof fn lemma_ack_names_all(q: Seq<u64>, k: int)
    requires
        ascending(q),
        0 <= k < q.len(),
        runs(q, q.len() - 1) <= MAX_ACK_RANGES,
    ensures
        names(intervals(q.last(), ack_ranges(q)), q[k]),
{
    let i = q.len() - 1;
    let run = run_below(q, i);
    lemma_run(q, i);
    let rest = ranges_below(q, i - run - 1, (MAX_ACK_RANGES - 1) as nat);
    let all = ack_ranges(q);
    assert(all =~= seq![(0u64, run as u64)] + rest);
    assert(all.skip(1) =~= rest);
    let low = minus(q.last(), run as u64);
    assert(low == q[i - run]) by {
        assert(q[i] - q[i - run] == run);
    }
    let inner = intervals_below(low, rest);
    let list = intervals(q.last(), all);
    assert(list =~= seq![(low, q.last())] + inner);
    if k >= i - run {
        assert(q[i] - q[k] == i - k);
        assert(list[0].0 <= q[k] <= list[0].1);
    } else {
        lemma_below_named(q, i - run - 1, (MAX_ACK_RANGES - 1) as nat, low, k);
        let m = choose|m: int|
            0 <= m < inner.len() && (#[trigger] inner[m]).0 <= q[k] <= inner[m].1;
        assert(list[m + 1] == inner[m]);
    }
}

// ---------------------------------------------------------------------------
// Receiving
// ---------------------------------------------------------------------------

/// A packet that was taken is acknowledged with the next acknowledgement, and is passed over
/// when it comes again. Nothing that waited to be acknowledged is forgotten while there is
/// room to remember it.
pub proof fn lemma_taken_once(c: ConnView, space: PnSpace, pn: u64, other: u64)
    requires
        c.wf(),
        c.spaces[space.place()].ack_queue.len() < MAX_ACK_QUEUE,
        c.spaces[space.place()].ack_queue.len() > 0 ==> c.spaces[space.place()].ack_queue.last()
            <= c.spaces[space.place()].largest_recv_pn,
    ensures
        ({
            let d = c.with_received(space, pn);
            let s = c.spaces[space.place()];
            let t = d.spaces[space.place()];
            &&& t.ack_pending
            &&& t.ack_queue.contains(pn)
            &&& s.ack_queue.contains(other) ==> t.ack_queue.contains(other)
            &&& t.ack_queue.contains(other) ==> s.ack_queue.contains(other) || other == pn
            &&& t.largest_recv_pn >= pn && t.largest_recv_pn >= s.largest_recv_pn
            &&& t.largest_recv_pn == pn || t.largest_recv_pn == s.largest_recv_pn
            &&& d.is_stale(space, pn)
            &&& d == (ConnView { spaces: d.spaces, ..c })
        }),
{
    let s = c.spaces[space.place()];
    assert(s.wf());
    lemma_with_number(s.ack_queue, pn);
    let d = c.with_received(space, pn);
    let t = d.spaces[space.place()];
    assert(with_number(s.ack_queue, pn).contains(pn));
    assert(t.ack_queue == with_number(s.ack_queue, pn));
    assert(with_number(s.ack_queue, pn).contains(other) <==> s.ack_queue.contains(other) || other
        == pn);
}

/// Packets that are none of the connection's are passed over: those of another version and
/// those for another connection change nothing. A packet that offers other versions ends the
/// handshake.
pub proof fn lemma_strange_packets(c: ConnView, data: Seq<u8>, now: u64)
    requires
        c.closed is None,
        data.len() >= 7,
    ensures
        ({
            let version = be_value(data.subrange(1, 5));
            let long = data[0] >= 0x80;
            let kind = (data[0] / 0x10) % 4;
            let nothing = (c, Ok::<(), QuicFault>(()));
            &&& long && version != 0 && version != 1 ==> c.on_one(data, now) == nothing
            &&& long && version == 0 ==> c.on_one(data, now).0 == c && c.on_one(data, now).1 is Err
            &&& long && version == 1 && kind == 1 ==> c.on_one(data, now) == nothing
            &&& long && version == 1 && kind != 3 && data[5] != c.scid.len() ==> c.on_one(data, now)
                == nothing
            &&& long && version == 1 && kind != 3 && data[5] == c.scid.len() && data.len() >= 6
                + c.scid.len() && data.subrange(6, 6 + c.scid.len() as int) != c.scid ==> c.on_one(
                data,
                now,
            ) == nothing
            &&& !long && data.len() > 1 + c.scid.len() && data.subrange(1, 1 + c.scid.len() as int)
                != c.scid ==> c.on_one(data, now) == nothing
        }),
{
}

// ---------------------------------------------------------------------------
// Retry
// ---------------------------------------------------------------------------

/// A Retry packet.
pub open spec fn retry_bytes(first: u8, r: RetryView) -> Seq<u8> {
    seq![first, 0u8, 0u8, 0u8, 1u8] + seq![r.dcid.len() as u8] + r.dcid + seq![r.scid.len() as u8]
        + r.scid + varint_bytes(r.token.len() as u64) + r.token + r.tag
}

/// A Retry is read as the identifiers, the token and the tag that it was written with.
pub proof fn lemma_retry_round_trip(first: u8, r: RetryView)
    requires
        r.dcid.len() <= 20,
        r.scid.len() <= 20,
        r.token.len() < 0x4000,
        r.tag.len() == 16,
    ensures
        retry_of(retry_bytes(first, r)) == Ok::<RetryView, QuicFault>(r),
{
    let data = retry_bytes(first, r);
    let n = r.token.len();
    let v = varint_bytes(n as u64);
    let at = 6 + r.dcid.len() as int;
    let behind = at + 1 + r.scid.len();
    assert(data[5] == r.dcid.len());
    assert(data[at] == r.scid.len());
    lemma_varint_round_trip(n as u64, r.token + r.tag);
    assert(data.skip(behind) =~= v + (r.token + r.tag));
    assert(data.subrange(6, at) =~= r.dcid);
    assert(data.subrange(at + 1, behind) =~= r.scid);
    let t = behind + v.len();
    assert(data.subrange(t, t + n) =~= r.token);
    assert(data.subrange(t + n, t + n + 16) =~= r.tag);
    assert(data.len() == t + n + 16);
}

/// A Retry that answers the connection and whose tag is right makes it begin again: the
/// hello goes out once more from its first byte, to the identifier that the server chose,
/// under the keys of that identifier, and with the token. One for another connection, or
/// with a wrong tag, changes nothing.
pub proof fn lemma_retry_begins_again(c: ConnView, first: u8, r: RetryView)
    requires
        c.spaces.len() == 3,
        r.dcid.len() <= 20,
        1 <= r.scid.len() <= 20,
        r.token.len() < 0x4000,
        r.tag.len() == 16,
        c.tls.client_hello.len() <= u64::MAX,
    ensures
        ({
            let (d, outcome) = c.on_retry(retry_bytes(first, r));
            let genuine = gcm_opened(RETRY_KEY@, RETRY_NONCE@, retry_pseudo(r), r.tag) is Some;
            &&& outcome is Ok
            &&& r.dcid != c.dcid || !genuine ==> d == c
            &&& r.dcid == c.dcid && genuine ==> {
                &&& d.dcid == r.scid
                &&& d.retry_token == r.token
                &&& d.spaces[0].crypto_send == c.tls.client_hello
                &&& d.spaces[0].crypto_sent == 0 && d.spaces[0].crypto_acked == 0
                &&& d.spaces[0].crypto_written == c.tls.client_hello.len()
                &&& d.spaces[0].sent.len() == 0
                &&& d.spaces[0].write_key == Some(PacketKeyView::Initial(r.scid, false))
                &&& d.spaces[0].key == Some(PacketKeyView::Initial(r.scid, true))
                &&& d.spaces[1] == c.spaces[1] && d.spaces[2] == c.spaces[2]
                &&& d.scid == c.scid && d.streams == c.streams && d.limits == c.limits
                &&& d.closed == c.closed
            }
        }),
{
    lemma_retry_round_trip(first, r);
    let s = SpaceView::unused();
    let hello = c.tls.client_hello;
    assert(s.crypto_send + hello.take(hello.len() as int) =~= hello);
}

// ---------------------------------------------------------------------------
// Limits and keys of the handshake
// ---------------------------------------------------------------------------

/// Once the handshake is complete the peer's parameters hold: how many streams of each kind,
/// how much on all of them, and how much on each of a kind. What the peer says of streams
/// that it takes part in from the far end holds of those that this side opens in both
/// directions. Before, nothing holds, and no limit ever falls.
pub proof fn lemma_peer_parameters(c: ConnView, tp: ParamsView)
    requires
        c.tls.peer_tp == Some(tp),
    ensures
        ({
            let d = c.with_peer_limits();
            let l = c.limits;
            let m = d.limits;
            &&& !c.tls.complete() ==> d == c
            &&& c.tls.complete() ==> {
                &&& m.peer_bidi_limit >= tp.initial_max_streams_bidi
                &&& m.peer_uni_limit >= tp.initial_max_streams_uni
                &&& m.peer_max_data >= tp.initial_max_data
                &&& m.peer_max_stream_data_bidi >= tp.initial_max_stream_data_bidi_remote
                &&& m.peer_max_stream_data_uni >= tp.initial_max_stream_data_uni
                &&& l.peer_bidi_limit == 0 ==> m.peer_bidi_limit == tp.initial_max_streams_bidi
                &&& l.peer_uni_limit == 0 ==> m.peer_uni_limit == tp.initial_max_streams_uni
                &&& l.peer_max_data == 0 ==> m.peer_max_data == tp.initial_max_data
                &&& l.peer_max_stream_data_bidi == 0 ==> m.peer_max_stream_data_bidi
                    == tp.initial_max_stream_data_bidi_remote
                &&& l.peer_max_stream_data_uni == 0 ==> m.peer_max_stream_data_uni
                    == tp.initial_max_stream_data_uni
                &&& d == (ConnView { limits: m, ..c })
            }
            &&& m.peer_bidi_limit >= l.peer_bidi_limit && m.peer_uni_limit >= l.peer_uni_limit
            &&& m.peer_max_data >= l.peer_max_data
            &&& m.next_bidi == l.next_bidi && m.next_uni == l.next_uni
            &&& m.total_sent == l.total_sent && m.total_recv == l.total_recv
            &&& m.max_data_advertised == l.max_data_advertised
        }),
{
}

/// A space gets the keys of the handshake when there are some: the handshake's space those
/// of the handshake, unless it is over, and the application's space those of the application
/// once the handshake is complete. Keys that a space has are not taken away.
pub proof fn lemma_keys_installed(c: ConnView)
    requires
        c.spaces.len() == 3,
    ensures
        ({
            let d = c.with_keys();
            &&& d.spaces.len() == 3
            &&& d.spaces[0] == c.spaces[0]
            &&& c.spaces[1].write_key is None && !c.handshake_confirmed ==> d.spaces[1].write_key
                == c.tls.hs_write
            &&& c.spaces[1].key is None && !c.handshake_confirmed ==> d.spaces[1].key
                == c.tls.hs_read
            &&& c.spaces[1].write_key is Some ==> d.spaces[1].write_key == c.spaces[1].write_key
            &&& c.spaces[1].key is Some ==> d.spaces[1].key == c.spaces[1].key
            &&& c.handshake_confirmed ==> d.spaces[1] == c.spaces[1]
            &&& c.tls.complete() && c.tls.app_write is Some ==> d.spaces[2].write_key
                == c.tls.app_write
            &&& c.tls.complete() && c.tls.app_read is Some ==> d.spaces[2].key == c.tls.app_read
            &&& !c.tls.complete() ==> d.spaces[2] == c.spaces[2]
            &&& d == (ConnView { spaces: d.spaces, ..c })
        }),
{
}

/// What the client tells of its limits is what its settings say, the same for streams of
/// every kind.
pub proof fn lemma_settings_are_told(config: ClientConfig)
    ensures
        ({
            let p = advertised(config);
            &&& p.initial_max_data == config.initial_max_data
            &&& p.initial_max_stream_data_bidi_local == config.initial_max_stream_data
            &&& p.initial_max_stream_data_bidi_remote == config.initial_max_stream_data
            &&& p.initial_max_stream_data_uni == config.initial_max_stream_data
            &&& p.initial_max_streams_bidi == config.max_concurrent_bidi_streams
            &&& p.initial_max_streams_uni == config.max_concurrent_uni_streams
            &&& p.max_udp_payload_size == config.max_udp_payload_size
            &&& p.max_ack_delay == 25 && p.ack_delay_exponent == 3
        }),
{
}

/// What the client told is what it holds the peer to: a connection takes in on each stream,
/// and on all of them, what its settings say.
pub proof fn lemma_told_limits_hold(
    config: ClientConfig,
    tls: HandshakeView,
    scid: Seq<u8>,
    dcid: Seq<u8>,
    now: u64,
    id: u64,
)
    ensures
        ({
            let c = started(config, tls, scid, dcid, now);
            let p = advertised(config);
            &&& id % 4 == 0 ==> c.recv_window(id) == p.initial_max_stream_data_bidi_local
            &&& id % 4 == 1 ==> c.recv_window(id) == p.initial_max_stream_data_bidi_remote
            &&& id % 4 == 3 ==> c.recv_window(id) == p.initial_max_stream_data_uni
            &&& c.limits.max_data_advertised == p.initial_max_data
            &&& c.limits.total_sent == 0 && c.limits.total_recv == 0
            &&& c.limits.peer_max_data == 0
            &&& !c.may_open(false) && !c.may_open(true)
            &&& c.limits.next_bidi % 4 == 0 && c.limits.next_uni % 4 == 2
            &&& c.spaces[0].write_key == Some(PacketKeyView::Initial(dcid, false))
            &&& c.spaces[0].key == Some(PacketKeyView::Initial(dcid, true))
            &&& c.spaces[1].key is None && c.spaces[2].key is None
            &&& c.closed is None && !c.handshake_complete && !c.handshake_confirmed
            &&& c.timers.last_recv == now
            &&& c.timers.idle_timeout == config.idle_timeout
            &&& c.timers.handshake_timeout == config.handshake_timeout
            &&& c.timers.keep_alive_interval == config.keep_alive_interval
        }),
{
}

// ---------------------------------------------------------------------------
// Payloads and datagrams
// ---------------------------------------------------------------------------

/// The frames of a payload take effect one after another, in their order. The first that
/// cannot be read, or is refused, ends it.
pub proof fn lemma_frames_in_order(c: ConnView, space: PnSpace, plain: Seq<u8>, pos: int, now: u64)
    requires
        0 <= pos < plain.len(),
    ensures
        match frame_of(plain.skip(pos)) {
            Err(m) => c.on_frames(space, plain, pos, now) == (
                c,
                Err::<(), QuicFault>(QuicFault::Protocol(m)),
            ),
            Ok((frame, n)) => 1 <= n && pos + n <= plain.len() ==> {
                let (d, r) = c.on_frame(space, frame, now);
                &&& r is Ok ==> c.on_frames(space, plain, pos, now) == d.on_frames(
                    space,
                    plain,
                    pos + n,
                    now,
                )
                &&& r is Err ==> c.on_frames(space, plain, pos, now) == (d, r)
            },
        },
        c.on_frames(space, plain, plain.len() as int, now) == (c, Ok::<(), QuicFault>(())),
{
}

/// A packet whose payload was taken is acknowledged later; one whose payload was refused, and
/// one that closes the connection, is not.
pub proof fn lemma_payload_taken(c: ConnView, space: PnSpace, pn: u64, plain: Seq<u8>, now: u64)
    ensures
        ({
            let (d, r) = c.on_frames(space, plain, 0, now);
            let (e, q) = c.on_payload(space, pn, plain, now);
            &&& r is Ok <==> q is Ok
            &&& r is Ok && d.closed is None ==> e == d.with_received(space, pn)
            &&& r is Ok && d.closed is Some ==> e == d
            &&& r matches Err(f) ==> e == d && q == Err::<(), QuicFault>(f)
        }),
{
}

/// A datagram that arrives shows that the peer is there. One that carries packets of the
/// connection is answered with what is due by then; one that breaks the protocol closes the
/// connection with what is said of it, and nothing goes out. Without a mask the datagram is
/// taken as it is.
pub proof fn lemma_datagram_driven(c: ConnView, raw: Seq<u8>, now: u64)
    ensures
        ({
            let heard = ConnView { timers: Timers { last_recv: now, ..c.timers }, ..c };
            let (d, r) = heard.on_inbound(raw, now);
            &&& r is Ok ==> c.driven(raw, None, now) == d.outbound(now)
            &&& r matches Err(f) ==> c.driven(raw, None, now) == (
                d.closed_with(f),
                Seq::<Seq<u8>>::empty(),
            )
            &&& c.closed is Some ==> c.driven(raw, None, now).1.len() == 0
        }),
        c.closed is None ==> c.closed_with(QuicFault::Closed).closed == Some(QuicFault::Closed),
        c.closed is Some ==> c.closed_with(QuicFault::Closed).closed == c.closed,
{
}

} // verus!
