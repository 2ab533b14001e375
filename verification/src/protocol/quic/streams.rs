//! The state of one stream: a send buffer with retransmission, and a receive buffer that
//! puts segments in order.

use super::error::{protocol, QuicError, QuicFault, Result};
use super::frame::{Outgoing, OutgoingView};
use super::ranges::{
    acknowledge, acknowledged, ahead, in_ranges, lemma_acknowledged, lemma_ahead,
};
use super::recovery::{capped, max_int, min_int, minus};
use crate::wire::{copy_range, drop_front, extend};
use vstd::prelude::*;
use vstd::slice::*;

verus! {

/// Bytes of a stream that may wait for acknowledgement before a write has to wait.
pub const MAX_SEND_BUFFER: usize = 4_194_304;

/// Bytes of a stream that may wait to be read.
pub const MAX_RECV_BUFFER: u64 = 16_777_216;

/// Segments received ahead of the rest: where each begins, and its bytes.
pub open spec fn segments_view(v: Seq<(u64, Vec<u8>)>) -> Seq<(u64, Seq<u8>)> {
    Seq::new(v.len(), |i: int| (v[i].0, v[i].1@))
}

/// Where a segment ends.
pub open spec fn end_of(seg: (u64, Seq<u8>)) -> int {
    seg.0 + seg.1.len()
}

/// In order, with at least a byte missing between any two.
pub open spec fn separate(g: Seq<(u64, Seq<u8>)>) -> bool {
    forall|i: int, j: int| 0 <= i < j < g.len() ==> end_of(#[trigger] g[i]) < (#[trigger] g[j]).0
}

/// All bytes of the segments.
pub open spec fn total(g: Seq<(u64, Seq<u8>)>) -> nat
    decreases g.len(),
{
    if g.len() == 0 {
        0
    } else {
        total(g.drop_last()) + g.last().1.len()
    }
}

/// The first segment from the `i`th on that reaches `offset`.
pub open spec fn first_reaching(g: Seq<(u64, Seq<u8>)>, offset: u64, i: int) -> int
    decreases g.len() - i,
{
    if 0 <= i < g.len() && end_of(g[i]) < offset {
        first_reaching(g, offset, i + 1)
    } else {
        i
    }
}

/// The first segment from the `i`th on that begins behind `end`.
pub open spec fn first_behind(g: Seq<(u64, Seq<u8>)>, end: int, i: int) -> int
    decreases g.len() - i,
{
    if 0 <= i < g.len() && g[i].0 <= end {
        first_behind(g, end, i + 1)
    } else {
        i
    }
}

/// What the segments from `lo` to `hi` add in front of new data at `offset`.
pub open spec fn head_of(g: Seq<(u64, Seq<u8>)>, lo: int, hi: int, offset: u64) -> Seq<u8> {
    if lo < hi && g[lo].0 < offset {
        g[lo].1.take(offset - g[lo].0)
    } else {
        Seq::empty()
    }
}

/// What they add behind new data that ends at `end`.
pub open spec fn tail_of(g: Seq<(u64, Seq<u8>)>, lo: int, hi: int, end: int) -> Seq<u8> {
    if lo < hi && end_of(g[hi - 1]) > end {
        g[hi - 1].1.skip(end - g[hi - 1].0)
    } else {
        Seq::empty()
    }
}

/// The segments with new data among them. What it overlaps or touches becomes one segment
/// with it, and the new bytes win.
pub open spec fn with_segment(g: Seq<(u64, Seq<u8>)>, offset: u64, data: Seq<u8>) -> Seq<
    (u64, Seq<u8>),
> {
    let end = offset + data.len();
    let lo = first_reaching(g, offset, 0);
    let hi = first_behind(g, end, lo);
    let head = head_of(g, lo, hi, offset);
    let merged = ((offset - head.len()) as u64, head + data + tail_of(g, lo, hi, end));
    g.take(lo).push(merged) + g.skip(hi)
}

/// Send and receive state of a stream as a mathematical value.
#[verifier::ext_equal]
pub struct StreamView {
    /// Bytes written, from the first one that is not acknowledged on.
    pub send_buf: Seq<u8>,
    /// Everything before this offset is acknowledged.
    pub ack_pos: u64,
    /// What is acknowledged ahead of it.
    pub acked_ahead: Seq<(u64, u64)>,
    /// Bytes written so far.
    pub write_pos: u64,
    /// Where the next frame begins.
    pub sent_through: u64,
    /// The largest `sent_through` so far.
    pub sent_high: u64,
    /// What the peer allows on this stream.
    pub peer_limit: u64,
    pub fin_queued: bool,
    pub fin_sent: bool,
    pub fin_acked: bool,
    pub reset_sent: Option<u64>,
    pub reset_recv: Option<u64>,
    /// Bytes in order, ready to be read.
    pub recv_prefix: Seq<u8>,
    /// Offset of the first of them.
    pub recv_contig: u64,
    /// Segments ahead of them.
    pub recv_gaps: Seq<(u64, Seq<u8>)>,
    /// What the peer may send on this stream.
    pub peer_send_limit: u64,
    pub fin_recv: bool,
    pub fin_recv_offset: u64,
}

/// Send and receive state of a stream.
#[derive(Debug)]
pub struct StreamState {
    send_buf: Vec<u8>,
    ack_pos: u64,
    acked_ahead: Vec<(u64, u64)>,
    write_pos: u64,
    sent_through: u64,
    sent_high: u64,
    peer_limit: u64,
    fin_queued: bool,
    fin_sent: bool,
    fin_acked: bool,
    reset_sent: Option<u64>,
    reset_recv: Option<u64>,
    recv_prefix: Vec<u8>,
    recv_contig: u64,
    recv_gaps: Vec<(u64, Vec<u8>)>,
    peer_send_limit: u64,
    fin_recv: bool,
    fin_recv_offset: u64,
}

impl View for StreamState {
    type V = StreamView;

    closed spec fn view(&self) -> StreamView {
        StreamView {
            send_buf: self.send_buf@,
            ack_pos: self.ack_pos,
            acked_ahead: self.acked_ahead@,
            write_pos: self.write_pos,
            sent_through: self.sent_through,
            sent_high: self.sent_high,
            peer_limit: self.peer_limit,
            fin_queued: self.fin_queued,
            fin_sent: self.fin_sent,
            fin_acked: self.fin_acked,
            reset_sent: self.reset_sent,
            reset_recv: self.reset_recv,
            recv_prefix: self.recv_prefix@,
            recv_contig: self.recv_contig,
            recv_gaps: segments_view(self.recv_gaps@),
            peer_send_limit: self.peer_send_limit,
            fin_recv: self.fin_recv,
            fin_recv_offset: self.fin_recv_offset,
        }
    }
}

/// What a read gives.
#[derive(Debug)]
pub enum RecvOutcome {
    /// Bytes of the stream.
    Data(Vec<u8>),
    /// Nothing yet.
    WouldBlock,
    /// The stream is at its end.
    Eof,
    /// The peer gave the stream up with this code.
    Reset(u64),
}

/// What a read gives, as a mathematical value.
#[verifier::ext_equal]
pub enum OutcomeView {
    Data(Seq<u8>),
    WouldBlock,
    Eof,
    Reset(u64),
}

impl View for RecvOutcome {
    type V = OutcomeView;

    open spec fn view(&self) -> OutcomeView {
        match self {
            RecvOutcome::Data(d) => OutcomeView::Data(d@),
            RecvOutcome::WouldBlock => OutcomeView::WouldBlock,
            RecvOutcome::Eof => OutcomeView::Eof,
            RecvOutcome::Reset(code) => OutcomeView::Reset(*code),
        }
    }
}

impl StreamView {
    /// The send buffer holds what is written from the first byte on that is not acknowledged,
    /// frames begin between the two, at least a byte is missing before what is acknowledged
    /// ahead, everything received is within what the peer may send and what may be
    /// buffered, and at least a byte is missing before every segment ahead.
    pub open spec fn wf(self) -> bool {
        &&& self.ack_pos <= self.sent_through <= self.write_pos
        &&& self.sent_through <= self.sent_high
        &&& self.send_buf.len() == self.write_pos - self.ack_pos
        &&& ahead(self.ack_pos, self.acked_ahead, self.write_pos as int)
        &&& self.recv_contig + self.recv_prefix.len() <= self.peer_send_limit
        &&& separate(self.recv_gaps)
        &&& forall|i: int|
            0 <= i < self.recv_gaps.len() ==> self.in_order() < (#[trigger] self.recv_gaps[i]).0
                && end_of(self.recv_gaps[i]) <= self.peer_send_limit
        &&& self.buffered_recv() <= MAX_RECV_BUFFER
    }

    /// Bytes waiting to be read, in order or not.
    pub open spec fn buffered_recv(self) -> nat {
        self.recv_prefix.len() + total(self.recv_gaps)
    }

    /// The offset behind the bytes that are in order.
    pub open spec fn in_order(self) -> int {
        self.recv_contig + self.recv_prefix.len()
    }

    /// A new stream.
    pub open spec fn opened(peer_limit: u64, peer_send_limit: u64) -> StreamView {
        StreamView {
            send_buf: Seq::empty(),
            ack_pos: 0,
            acked_ahead: Seq::empty(),
            write_pos: 0,
            sent_through: 0,
            sent_high: 0,
            peer_limit,
            fin_queued: false,
            fin_sent: false,
            fin_acked: false,
            reset_sent: None,
            reset_recv: None,
            recv_prefix: Seq::empty(),
            recv_contig: 0,
            recv_gaps: Seq::empty(),
            peer_send_limit,
            fin_recv: false,
            fin_recv_offset: 0,
        }
    }

    /// Whether there is something to send.
    pub open spec fn has_send_data(self) -> bool {
        self.sent_through < self.write_pos || self.fin_due()
    }

    /// Whether the end of the stream has to be sent.
    pub open spec fn fin_due(self) -> bool {
        self.fin_queued && !self.fin_sent && !self.fin_acked
    }

    /// Whether the byte at an offset is written and not acknowledged.
    pub open spec fn outstanding(self, at: int) -> bool {
        self.ack_pos <= at < self.write_pos && !in_ranges(self.acked_ahead, at)
    }

    /// The byte at an offset that is kept to be sent again.
    pub open spec fn byte(self, at: int) -> u8 {
        self.send_buf[at - self.ack_pos]
    }

    /// With the new bytes of a segment that the bytes in order reach put behind them.
    pub open spec fn joined(self, offset: u64, data: Seq<u8>) -> StreamView {
        let skip = self.in_order() - offset;
        StreamView {
            recv_prefix: if skip < data.len() {
                self.recv_prefix + data.skip(skip)
            } else {
                self.recv_prefix
            },
            ..self
        }
    }

    /// With every segment that the bytes in order reach moved behind them.
    pub open spec fn promoted(self) -> StreamView
        decreases self.recv_gaps.len(),
    {
        if self.recv_gaps.len() > 0 && self.recv_gaps[0].0 <= self.in_order() {
            let (offset, data) = self.recv_gaps[0];
            (StreamView {
                recv_gaps: self.recv_gaps.skip(1),
                ..self.joined(offset, data)
            }).promoted()
        } else {
            self
        }
    }

    /// With a segment placed: behind the bytes in order where it reaches them, among the
    /// segments ahead otherwise.
    pub open spec fn placed(self, offset: u64, data: Seq<u8>) -> StreamView {
        if offset <= self.in_order() {
            self.joined(offset, data).promoted()
        } else {
            (StreamView {
                recv_gaps: with_segment(self.recv_gaps, offset, data),
                ..self
            }).promoted()
        }
    }

    /// With the end of the stream known.
    pub open spec fn finished_at(self, fin: bool, end: int) -> StreamView {
        if fin {
            StreamView { fin_recv: true, fin_recv_offset: end as u64, ..self }
        } else {
            self
        }
    }

    /// After a STREAM frame, or why it is refused.
    pub open spec fn received(self, offset: u64, data: Seq<u8>, fin: bool) -> core::result::Result<
        StreamView,
        QuicFault,
    > {
        let end = offset + data.len();
        if end > self.peer_send_limit {
            Err(QuicFault::Protocol("stream flow-control violation"@))
        } else if self.buffered_recv() + data.len() > MAX_RECV_BUFFER {
            Err(QuicFault::Protocol("receive buffer overflow"@))
        } else {
            Ok(self.finished_at(fin, end).placed(offset, data))
        }
    }

    /// The limit to advertise next, once more than half the window is used.
    pub open spec fn next_limit(self) -> Option<u64> {
        let window = self.peer_send_limit;
        if window > 0 && self.in_order() + window / 2 > window {
            Some(capped(window + window / 2))
        } else {
            None
        }
    }

    /// With that limit in force.
    pub open spec fn credited(self) -> StreamView {
        match self.next_limit() {
            Some(max) => StreamView { peer_send_limit: max, ..self },
            None => self,
        }
    }

    /// A read of at most `limit` bytes: the stream behind it, and what it gives.
    pub open spec fn read(self, limit: nat) -> (StreamView, OutcomeView) {
        match self.reset_recv {
            Some(code) => (self, OutcomeView::Reset(code)),
            None => if self.recv_prefix.len() > 0 {
                let n = min_int(limit as int, self.recv_prefix.len() as int);
                (
                    StreamView {
                        recv_prefix: self.recv_prefix.skip(n),
                        recv_contig: (self.recv_contig + n) as u64,
                        ..self
                    },
                    OutcomeView::Data(self.recv_prefix.take(n)),
                )
            } else if self.fin_recv && self.recv_contig >= self.fin_recv_offset {
                (self, OutcomeView::Eof)
            } else {
                (self, OutcomeView::WouldBlock)
            },
        }
    }

    /// A write of `data`: the stream behind it and how much was taken.
    pub open spec fn written(self, data: Seq<u8>) -> core::result::Result<
        (StreamView, nat),
        QuicFault,
    > {
        let buffered = self.write_pos - self.ack_pos;
        if self.reset_sent is Some || self.reset_recv is Some {
            Err(QuicFault::StreamReset(0))
        } else if buffered >= MAX_SEND_BUFFER {
            Err(QuicFault::StreamLimit)
        } else {
            let n = min_int(
                min_int(data.len() as int, MAX_SEND_BUFFER - buffered),
                u64::MAX - self.write_pos,
            );
            Ok(
                (
                    StreamView {
                        send_buf: self.send_buf + data.take(n),
                        write_pos: (self.write_pos + n) as u64,
                        ..self
                    },
                    n as nat,
                ),
            )
        }
    }

    /// After a frame with `len` bytes at `offset` is acknowledged: a byte is given up once it
    /// and all before it are.
    pub open spec fn acked(self, offset: u64, len: nat, fin: bool) -> StreamView {
        let (pos, acked_ahead) = acknowledged(
            self.ack_pos,
            self.acked_ahead,
            self.write_pos,
            offset,
            len,
        );
        StreamView {
            send_buf: self.send_buf.skip(pos - self.ack_pos),
            ack_pos: pos,
            acked_ahead,
            sent_through: max_int(self.sent_through as int, pos as int) as u64,
            sent_high: max_int(self.sent_high as int, pos as int) as u64,
            fin_acked: self.fin_acked || (fin && offset + len >= self.sent_through),
            ..self
        }
    }

    /// After a frame at `offset` is lost: it is sent again, but for what is acknowledged.
    pub open spec fn lost(self, offset: u64, fin: bool) -> StreamView {
        StreamView {
            sent_through: if offset < self.sent_through {
                max_int(offset as int, self.ack_pos as int) as u64
            } else {
                self.sent_through
            },
            fin_sent: self.fin_sent && !fin,
            ..self
        }
    }

    /// Bytes that the next frame may carry under the stream's and the connection's credit
    /// and the room in the packet. A byte that was sent before needs no credit of the
    /// connection.
    pub open spec fn frame_len(self, send_limit: u64, credit: u64, budget: u64) -> int {
        let end = min_int(
            min_int(send_limit as int, self.sent_high + credit),
            self.write_pos as int,
        );
        max_int(min_int(end - self.sent_through, budget as int), 0)
    }

    /// The next frame of the stream, the stream behind it, and the credit of the
    /// connection that it uses.
    pub open spec fn next_frame(self, id: u64, send_limit: u64, credit: u64, budget: u64) -> (
        StreamView,
        Option<OutgoingView>,
        u64,
    ) {
        let n = self.frame_len(send_limit, credit, budget);
        let through = self.sent_through + n;
        let fin = self.fin_due() && through == self.write_pos;
        if self.reset_sent is Some || (n == 0 && !fin) {
            (self, None, 0)
        } else {
            let start = self.sent_through - self.ack_pos;
            (
                StreamView {
                    sent_through: through as u64,
                    sent_high: max_int(self.sent_high as int, through) as u64,
                    fin_sent: self.fin_sent || fin,
                    ..self
                },
                Some(
                    OutgoingView::Stream {
                        stream_id: id,
                        offset: self.sent_through,
                        data: self.send_buf.subrange(start, start + n),
                        fin,
                    },
                ),
                minus(through as u64, self.sent_high),
            )
        }
    }
}

// ---------------------------------------------------------------------------
// Segments
// ---------------------------------------------------------------------------

proof fn lemma_reaching(g: Seq<(u64, Seq<u8>)>, offset: u64, i: int)
    requires
        0 <= i <= g.len(),
    ensures
        i <= first_reaching(g, offset, i) <= g.len(),
        forall|k: int|
            i <= k < first_reaching(g, offset, i) ==> end_of(#[trigger] g[k]) < offset,
        first_reaching(g, offset, i) < g.len() ==> end_of(g[first_reaching(g, offset, i)])
            >= offset,
    decreases g.len() - i,
{
    if i < g.len() && end_of(g[i]) < offset {
        lemma_reaching(g, offset, i + 1);
    }
}

proof fn lemma_behind(g: Seq<(u64, Seq<u8>)>, end: int, i: int)
    requires
        0 <= i <= g.len(),
    ensures
        i <= first_behind(g, end, i) <= g.len(),
        forall|k: int| i <= k < first_behind(g, end, i) ==> (#[trigger] g[k]).0 <= end,
        first_behind(g, end, i) < g.len() ==> g[first_behind(g, end, i)].0 > end,
    decreases g.len() - i,
{
    if i < g.len() && g[i].0 <= end {
        lemma_behind(g, end, i + 1);
    }
}

proof fn lemma_total_concat(a: Seq<(u64, Seq<u8>)>, b: Seq<(u64, Seq<u8>)>)
    ensures
        total(a + b) == total(a) + total(b),
    decreases b.len(),
{
    if b.len() == 0 {
        assert(a + b =~= a);
    } else {
        lemma_total_concat(a, b.drop_last());
        assert((a + b).drop_last() =~= a + b.drop_last());
        assert((a + b).last() == b.last());
    }
}

proof fn lemma_total_one(seg: (u64, Seq<u8>))
    ensures
        total(seq![seg]) == seg.1.len(),
{
    assert(seq![seg].drop_last() =~= Seq::empty());
    reveal_with_fuel(total, 2);
}

proof fn lemma_total_item(g: Seq<(u64, Seq<u8>)>, i: int)
    requires
        0 <= i < g.len(),
    ensures
        total(g) == total(g.take(i)) + g[i].1.len() + total(g.skip(i + 1)),
        total(g.remove(i)) == total(g) - g[i].1.len(),
{
    assert(g =~= g.take(i) + seq![g[i]] + g.skip(i + 1));
    lemma_total_concat(g.take(i) + seq![g[i]], g.skip(i + 1));
    lemma_total_concat(g.take(i), seq![g[i]]);
    lemma_total_one(g[i]);
    assert(g.remove(i) =~= g.take(i) + g.skip(i + 1));
    lemma_total_concat(g.take(i), g.skip(i + 1));
}

/// The segment that new data at `offset` becomes.
spec fn merged_with(g: Seq<(u64, Seq<u8>)>, lo: int, hi: int, offset: u64, data: Seq<u8>) -> (
    u64,
    Seq<u8>,
) {
    let head = head_of(g, lo, hi, offset);
    (
        (offset - head.len()) as u64,
        head + data + tail_of(g, lo, hi, offset + data.len()),
    )
}

/// What new data at `offset` does not reach, and what it joins.
spec fn parted(g: Seq<(u64, Seq<u8>)>, lo: int, hi: int, offset: u64, end: int) -> bool {
    &&& 0 <= lo <= hi <= g.len()
    &&& forall|k: int| 0 <= k < lo ==> end_of(#[trigger] g[k]) < offset
    &&& forall|k: int| lo <= k < hi ==> (#[trigger] g[k]).0 <= end && end_of(g[k]) >= offset
    &&& forall|k: int| hi <= k < g.len() ==> (#[trigger] g[k]).0 > end
}

proof fn lemma_parted(g: Seq<(u64, Seq<u8>)>, offset: u64, end: int)
    requires
        separate(g),
        offset <= end,
    ensures
        parted(
            g,
            first_reaching(g, offset, 0),
            first_behind(g, end, first_reaching(g, offset, 0)),
            offset,
            end,
        ),
{
    lemma_reaching(g, offset, 0);
    let lo = first_reaching(g, offset, 0);
    lemma_behind(g, end, lo);
    let hi = first_behind(g, end, lo);
    assert forall|k: int| lo <= k < hi implies (#[trigger] g[k]).0 <= end && end_of(g[k])
        >= offset by {
        if k > lo {
            assert(end_of(g[lo]) < g[k].0);
        }
    }
    assert forall|k: int| hi <= k < g.len() implies (#[trigger] g[k]).0 > end by {
        if k > hi {
            assert(end_of(g[hi]) < g[k].0);
        }
    }
}

proof fn lemma_merged_ends(
    g: Seq<(u64, Seq<u8>)>,
    lo: int,
    hi: int,
    offset: u64,
    data: Seq<u8>,
    limit: int,
)
    requires
        separate(g),
        parted(g, lo, hi, offset, offset + data.len()),
        offset + data.len() <= limit <= u64::MAX,
        forall|i: int| 0 <= i < g.len() ==> end_of(#[trigger] g[i]) <= limit,
    ensures
        end_of(merged_with(g, lo, hi, offset, data)) <= limit,
        forall|k: int|
            0 <= k < lo ==> end_of(#[trigger] g[k]) < merged_with(g, lo, hi, offset, data).0,
        forall|k: int|
            hi <= k < g.len() ==> end_of(merged_with(g, lo, hi, offset, data)) < (
            #[trigger] g[k]).0,
{
    let m = merged_with(g, lo, hi, offset, data);
    if lo < hi {
        assert(end_of(g[lo]) >= offset);
        assert(g[hi - 1].0 <= offset + data.len());
        assert(end_of(g[hi - 1]) <= limit);
        assert forall|k: int| 0 <= k < lo implies end_of(#[trigger] g[k]) < m.0 by {
            assert(end_of(g[k]) < g[lo].0);
        }
        assert forall|k: int| hi <= k < g.len() implies end_of(m) < (#[trigger] g[k]).0 by {
            assert(end_of(g[hi - 1]) < g[k].0);
        }
    }
}

proof fn lemma_merged_separate(
    g: Seq<(u64, Seq<u8>)>,
    lo: int,
    hi: int,
    m: (u64, Seq<u8>),
    limit: int,
)
    requires
        separate(g),
        0 <= lo <= hi <= g.len(),
        end_of(m) <= limit,
        forall|i: int| 0 <= i < g.len() ==> end_of(#[trigger] g[i]) <= limit,
        forall|k: int| 0 <= k < lo ==> end_of(#[trigger] g[k]) < m.0,
        forall|k: int| hi <= k < g.len() ==> end_of(m) < (#[trigger] g[k]).0,
    ensures
        separate(g.take(lo).push(m) + g.skip(hi)),
        forall|i: int|
            0 <= i < (g.take(lo).push(m) + g.skip(hi)).len() ==> end_of(
                #[trigger] (g.take(lo).push(m) + g.skip(hi))[i],
            ) <= limit,
{
    let r = g.take(lo).push(m) + g.skip(hi);
    assert forall|i: int| 0 <= i < r.len() implies #[trigger] r[i] == if i < lo {
        g[i]
    } else if i == lo {
        m
    } else {
        g[hi + (i - lo - 1)]
    } by {}
    assert forall|i: int, j: int| 0 <= i < j < r.len() implies end_of(#[trigger] r[i]) < (
    #[trigger] r[j]).0 by {
        let a = if i < lo {
            i
        } else {
            hi + (i - lo - 1)
        };
        let b = if j < lo {
            j
        } else {
            hi + (j - lo - 1)
        };
        if i != lo && j != lo {
            assert(end_of(g[a]) < g[b].0);
        }
    }
}

proof fn lemma_merged_total(g: Seq<(u64, Seq<u8>)>, lo: int, hi: int, offset: u64, data: Seq<u8>)
    requires
        parted(g, lo, hi, offset, offset + data.len()),
    ensures
        total(g.take(lo).push(merged_with(g, lo, hi, offset, data)) + g.skip(hi)) <= total(g)
            + data.len(),
{
    let end = offset + data.len();
    let m = merged_with(g, lo, hi, offset, data);
    let head = head_of(g, lo, hi, offset);
    let tail = tail_of(g, lo, hi, end);
    let mid = g.subrange(lo, hi);
    let r = g.take(lo).push(m) + g.skip(hi);
    assert(g =~= g.take(lo) + mid + g.skip(hi));
    lemma_total_concat(g.take(lo) + mid, g.skip(hi));
    lemma_total_concat(g.take(lo), mid);
    assert(r =~= g.take(lo) + seq![m] + g.skip(hi));
    lemma_total_concat(g.take(lo) + seq![m], g.skip(hi));
    lemma_total_concat(g.take(lo), seq![m]);
    lemma_total_one(m);
    if lo < hi {
        assert(end_of(g[lo]) >= offset);
        assert(g[hi - 1].0 <= end);
        if hi - lo == 1 {
            assert(mid =~= seq![g[lo]]);
            lemma_total_one(g[lo]);
        } else {
            lemma_total_item(mid, 0);
            let rest = mid.skip(1);
            lemma_total_item(rest, rest.len() - 1);
            assert(rest[rest.len() - 1] == g[hi - 1]);
            assert(mid[0] == g[lo]);
        }
    }
}

/// Placing new data keeps the segments apart, adds no more bytes than it has and reaches
/// no further than the segments and the data did.
proof fn lemma_with_segment(g: Seq<(u64, Seq<u8>)>, offset: u64, data: Seq<u8>, limit: int)
    requires
        separate(g),
        offset + data.len() <= limit <= u64::MAX,
        forall|i: int| 0 <= i < g.len() ==> end_of(#[trigger] g[i]) <= limit,
    ensures
        separate(with_segment(g, offset, data)),
        total(with_segment(g, offset, data)) <= total(g) + data.len(),
        forall|i: int|
            0 <= i < with_segment(g, offset, data).len() ==> end_of(
                #[trigger] with_segment(g, offset, data)[i],
            ) <= limit,
{
    let end = offset + data.len();
    let lo = first_reaching(g, offset, 0);
    let hi = first_behind(g, end, lo);
    let m = merged_with(g, lo, hi, offset, data);
    lemma_parted(g, offset, end);
    lemma_merged_ends(g, lo, hi, offset, data, limit);
    lemma_merged_separate(g, lo, hi, m, limit);
    lemma_merged_total(g, lo, hi, offset, data);
    assert(with_segment(g, offset, data) == g.take(lo).push(m) + g.skip(hi));
}

proof fn lemma_promoted(v: StreamView)
    requires
        v.in_order() <= v.peer_send_limit,
        separate(v.recv_gaps),
        forall|i: int|
            0 <= i < v.recv_gaps.len() ==> end_of(#[trigger] v.recv_gaps[i]) <= v.peer_send_limit,
        v.buffered_recv() <= MAX_RECV_BUFFER,
        v.ack_pos <= v.sent_through <= v.write_pos,
        v.sent_through <= v.sent_high,
        v.send_buf.len() == v.write_pos - v.ack_pos,
        ahead(v.ack_pos, v.acked_ahead, v.write_pos as int),
    ensures
        v.promoted().wf(),
    decreases v.recv_gaps.len(),
{
    let g = v.recv_gaps;
    if g.len() > 0 && g[0].0 <= v.in_order() {
        let next = StreamView { recv_gaps: g.skip(1), ..v.joined(g[0].0, g[0].1) };
        lemma_total_item(g, 0);
        assert(g.take(0) =~= Seq::empty());
        assert forall|i: int, j: int| 0 <= i < j < g.skip(1).len() implies end_of(
            #[trigger] g.skip(1)[i],
        ) < (#[trigger] g.skip(1)[j]).0 by {
            assert(end_of(g[i + 1]) < g[j + 1].0);
        }
        assert forall|i: int| 0 <= i < g.skip(1).len() implies end_of(#[trigger] g.skip(1)[i])
            <= v.peer_send_limit by {
            assert(end_of(g[i + 1]) <= v.peer_send_limit);
        }
        assert(end_of(g[0]) <= v.peer_send_limit);
        lemma_promoted(next);
    } else {
        assert forall|i: int| 0 <= i < g.len() implies v.in_order() < (#[trigger] g[i]).0 by {
            if i > 0 {
                assert(end_of(g[0]) < g[i].0);
            }
        }
    }
}

/// A frame that is accepted keeps the stream well-formed: within what the peer may send,
/// and within what may be buffered.
pub proof fn lemma_received_wf(v: StreamView, offset: u64, data: Seq<u8>, fin: bool)
    requires
        v.wf(),
        v.received(offset, data, fin) is Ok,
    ensures
        v.received(offset, data, fin)->Ok_0.wf(),
{
    let end = offset + data.len();
    let w = v.finished_at(fin, end);
    if offset <= w.in_order() {
        lemma_promoted(w.joined(offset, data));
    } else {
        lemma_with_segment(w.recv_gaps, offset, data, v.peer_send_limit as int);
        let g = with_segment(w.recv_gaps, offset, data);
        lemma_promoted(StreamView { recv_gaps: g, ..w });
    }
}

// ---------------------------------------------------------------------------
// What is received
// ---------------------------------------------------------------------------

/// Whether a segment covers an offset.
pub open spec fn covers(seg: (u64, Seq<u8>), at: int) -> bool {
    seg.0 <= at < end_of(seg)
}

/// Whether one of the segments covers an offset.
pub open spec fn covered(g: Seq<(u64, Seq<u8>)>, at: int) -> bool {
    exists|k: int| 0 <= k < g.len() && covers(#[trigger] g[k], at)
}

impl StreamView {
    /// Whether the byte at an offset waits to be read, in order or not.
    pub open spec fn holds(self, at: int) -> bool {
        self.recv_contig <= at < self.in_order() || covered(self.recv_gaps, at)
    }
}

proof fn lemma_promoted_holds(v: StreamView, at: int)
    requires
        v.recv_contig <= at,
    ensures
        v.promoted().holds(at) == v.holds(at),
        v.promoted().recv_contig == v.recv_contig,
    decreases v.recv_gaps.len(),
{
    let g = v.recv_gaps;
    if g.len() > 0 && g[0].0 <= v.in_order() {
        let next = StreamView { recv_gaps: g.skip(1), ..v.joined(g[0].0, g[0].1) };
        if covered(g, at) {
            let k = choose|k: int| 0 <= k < g.len() && covers(#[trigger] g[k], at);
            if k > 0 {
                assert(covers(g.skip(1)[k - 1], at));
            }
        }
        if covered(g.skip(1), at) {
            let k = choose|k: int| 0 <= k < g.skip(1).len() && covers(#[trigger] g.skip(1)[k], at);
            assert(covers(g[k + 1], at));
        }
        assert(covers(g[0], at) ==> covered(g, at));
        assert(next.holds(at) == v.holds(at));
        lemma_promoted_holds(next, at);
    }
}

proof fn lemma_segment_covers(g: Seq<(u64, Seq<u8>)>, offset: u64, data: Seq<u8>, at: int)
    requires
        separate(g),
        offset + data.len() <= u64::MAX,
        forall|i: int| 0 <= i < g.len() ==> end_of(#[trigger] g[i]) <= u64::MAX,
    ensures
        covered(with_segment(g, offset, data), at) == (covered(g, at) || covers(
            (offset, data),
            at,
        )),
{
    let end = offset + data.len();
    let lo = first_reaching(g, offset, 0);
    let hi = first_behind(g, end, lo);
    let m = merged_with(g, lo, hi, offset, data);
    let r = with_segment(g, offset, data);
    lemma_parted(g, offset, end);
    assert(r == g.take(lo).push(m) + g.skip(hi));
    assert(r[lo] == m);
    if lo < hi {
        assert(g[lo].0 <= end && end_of(g[lo]) >= offset);
        assert(g[hi - 1].0 <= end && end_of(g[hi - 1]) >= offset);
    }
    if covered(g, at) {
        let k = choose|k: int| 0 <= k < g.len() && covers(#[trigger] g[k], at);
        if k < lo {
            assert(r[k] == g[k]);
        } else if k < hi {
            assert(k > lo ==> end_of(g[lo]) < g[k].0);
            assert(k < hi - 1 ==> end_of(g[k]) < g[hi - 1].0);
            assert(covers(m, at));
        } else {
            assert(r[lo + 1 + (k - hi)] == g[k]);
        }
    }
    if covers((offset, data), at) {
        assert(covers(m, at));
    }
    if covered(r, at) {
        let k = choose|k: int| 0 <= k < r.len() && covers(#[trigger] r[k], at);
        if k < lo {
            assert(r[k] == g[k]);
        } else if k > lo {
            assert(r[k] == g[hi + (k - lo - 1)]);
        } else if at < offset {
            assert(covers(g[lo], at));
        } else if at >= end {
            assert(covers(g[hi - 1], at));
        }
    }
}

/// Nothing is lost and nothing made up: behind a frame that is accepted, a byte that is not
/// read yet waits exactly where it waited before or the frame carries it.
pub proof fn lemma_received_holds(v: StreamView, offset: u64, data: Seq<u8>, fin: bool, at: int)
    requires
        v.wf(),
        v.received(offset, data, fin) is Ok,
        v.recv_contig <= at,
    ensures
        v.received(offset, data, fin)->Ok_0.holds(at) == (v.holds(at) || covers(
            (offset, data),
            at,
        )),
        v.received(offset, data, fin)->Ok_0.recv_contig == v.recv_contig,
{
    let w = v.finished_at(fin, offset + data.len());
    if offset <= w.in_order() {
        assert(w.joined(offset, data).holds(at) == (v.holds(at) || covers((offset, data), at)));
        lemma_promoted_holds(w.joined(offset, data), at);
    } else {
        lemma_segment_covers(w.recv_gaps, offset, data, at);
        lemma_promoted_holds(
            StreamView { recv_gaps: with_segment(w.recv_gaps, offset, data), ..w },
            at,
        );
    }
}

/// Every byte received without a gap before it can be read: where all bytes up to `end` came
/// with this frame or before it, the bytes in order reach `end`.
pub proof fn lemma_contiguous_readable(
    v: StreamView,
    offset: u64,
    data: Seq<u8>,
    fin: bool,
    end: int,
)
    requires
        v.wf(),
        v.received(offset, data, fin) is Ok,
        forall|at: int|
            v.recv_contig <= at < end ==> #[trigger] v.holds(at) || covers((offset, data), at),
    ensures
        v.received(offset, data, fin)->Ok_0.in_order() >= end,
{
    let next = v.received(offset, data, fin)->Ok_0;
    let at = next.in_order();
    lemma_received_wf(v, offset, data, fin);
    lemma_received_holds(v, offset, data, fin, v.recv_contig as int);
    if at < end {
        lemma_received_holds(v, offset, data, fin, at);
        assert(v.holds(at) || covers((offset, data), at));
        assert(covered(next.recv_gaps, at));
    }
}

// ---------------------------------------------------------------------------
// Reassembly
// ---------------------------------------------------------------------------

/// Whether bytes at an offset are those of the stream.
pub open spec fn is_part(bytes: Seq<u8>, offset: int, content: spec_fn(int) -> u8) -> bool {
    forall|i: int| 0 <= i < bytes.len() ==> #[trigger] bytes[i] == content(offset + i)
}

impl StreamView {
    /// Whether everything that is buffered is what the stream holds there.
    pub open spec fn faithful(self, content: spec_fn(int) -> u8) -> bool {
        &&& is_part(self.recv_prefix, self.recv_contig as int, content)
        &&& forall|k: int|
            0 <= k < self.recv_gaps.len() ==> is_part(
                (#[trigger] self.recv_gaps[k]).1,
                self.recv_gaps[k].0 as int,
                content,
            )
    }
}

proof fn lemma_part_concat(a: Seq<u8>, b: Seq<u8>, offset: int, content: spec_fn(int) -> u8)
    requires
        is_part(a, offset, content),
        is_part(b, offset + a.len(), content),
    ensures
        is_part(a + b, offset, content),
{
    assert forall|i: int| 0 <= i < (a + b).len() implies #[trigger] (a + b)[i] == content(
        offset + i,
    ) by {
        if i >= a.len() {
            assert(b[i - a.len()] == content(offset + a.len() + (i - a.len())));
        } else {
            assert(a[i] == content(offset + i));
        }
    }
}

proof fn lemma_part_sub(a: Seq<u8>, offset: int, from: int, to: int, content: spec_fn(int) -> u8)
    requires
        is_part(a, offset, content),
        0 <= from <= to <= a.len(),
    ensures
        is_part(a.subrange(from, to), offset + from, content),
{
    assert forall|i: int| 0 <= i < to - from implies #[trigger] a.subrange(from, to)[i] == content(
        offset + from + i,
    ) by {
        assert(a[from + i] == content(offset + (from + i)));
    }
}

proof fn lemma_joined_faithful(
    v: StreamView,
    offset: u64,
    data: Seq<u8>,
    content: spec_fn(int) -> u8,
)
    requires
        v.faithful(content),
        is_part(data, offset as int, content),
        offset <= v.in_order(),
    ensures
        v.joined(offset, data).faithful(content),
{
    let skip = v.in_order() - offset;
    if skip < data.len() {
        lemma_part_sub(data, offset as int, skip, data.len() as int, content);
        assert(data.skip(skip) =~= data.subrange(skip, data.len() as int));
        lemma_part_concat(v.recv_prefix, data.skip(skip), v.recv_contig as int, content);
    }
}

proof fn lemma_promoted_faithful(v: StreamView, content: spec_fn(int) -> u8)
    requires
        v.faithful(content),
    ensures
        v.promoted().faithful(content),
    decreases v.recv_gaps.len(),
{
    let g = v.recv_gaps;
    if g.len() > 0 && g[0].0 <= v.in_order() {
        let next = StreamView { recv_gaps: g.skip(1), ..v.joined(g[0].0, g[0].1) };
        assert(is_part(g[0].1, g[0].0 as int, content));
        lemma_joined_faithful(v, g[0].0, g[0].1, content);
        assert forall|k: int| 0 <= k < g.skip(1).len() implies is_part(
            (#[trigger] g.skip(1)[k]).1,
            g.skip(1)[k].0 as int,
            content,
        ) by {
            assert(is_part(g[k + 1].1, g[k + 1].0 as int, content));
        }
        lemma_promoted_faithful(next, content);
    }
}

proof fn lemma_merged_faithful(
    g: Seq<(u64, Seq<u8>)>,
    lo: int,
    hi: int,
    offset: u64,
    data: Seq<u8>,
    content: spec_fn(int) -> u8,
)
    requires
        parted(g, lo, hi, offset, offset + data.len()),
        is_part(data, offset as int, content),
        forall|k: int|
            0 <= k < g.len() ==> is_part((#[trigger] g[k]).1, g[k].0 as int, content),
    ensures
        is_part(
            merged_with(g, lo, hi, offset, data).1,
            merged_with(g, lo, hi, offset, data).0 as int,
            content,
        ),
{
    let end = offset + data.len();
    let head = head_of(g, lo, hi, offset);
    let tail = tail_of(g, lo, hi, end);
    let start = offset - head.len();
    if lo < hi && g[lo].0 < offset {
        assert(is_part(g[lo].1, g[lo].0 as int, content));
        assert(end_of(g[lo]) >= offset);
        lemma_part_sub(g[lo].1, g[lo].0 as int, 0, offset - g[lo].0, content);
        assert(head =~= g[lo].1.subrange(0, offset - g[lo].0));
    }
    if lo < hi && end_of(g[hi - 1]) > end {
        let last = g[hi - 1];
        assert(is_part(last.1, last.0 as int, content));
        assert(last.0 <= end);
        lemma_part_sub(last.1, last.0 as int, end - last.0, last.1.len() as int, content);
        assert(tail =~= last.1.subrange(end - last.0, last.1.len() as int));
    }
    lemma_part_concat(head, data, start, content);
    lemma_part_concat(head + data, tail, start, content);
}

/// Reassembly: as long as every frame carries what the stream holds at its offset, in
/// whatever order and however often, so does the buffer. What a read gives is then the
/// stream itself.
pub proof fn lemma_reassembly(
    v: StreamView,
    offset: u64,
    data: Seq<u8>,
    fin: bool,
    content: spec_fn(int) -> u8,
)
    requires
        v.wf(),
        v.faithful(content),
        is_part(data, offset as int, content),
        v.received(offset, data, fin) is Ok,
    ensures
        v.received(offset, data, fin)->Ok_0.faithful(content),
{
    let end = offset + data.len();
    let w = v.finished_at(fin, end);
    if offset <= w.in_order() {
        lemma_joined_faithful(w, offset, data, content);
        lemma_promoted_faithful(w.joined(offset, data), content);
    } else {
        let g = w.recv_gaps;
        let lo = first_reaching(g, offset, 0);
        let hi = first_behind(g, end, lo);
        lemma_parted(g, offset, end);
        lemma_merged_faithful(g, lo, hi, offset, data, content);
        let r = with_segment(g, offset, data);
        let m = merged_with(g, lo, hi, offset, data);
        assert(r == g.take(lo).push(m) + g.skip(hi));
        assert forall|k: int| 0 <= k < r.len() implies is_part(
            (#[trigger] r[k]).1,
            r[k].0 as int,
            content,
        ) by {
            if k < lo {
                assert(r[k] == g[k]);
            } else if k > lo {
                assert(r[k] == g[hi + (k - lo - 1)]);
            } else {
                assert(r[k] == m);
            }
        }
        lemma_promoted_faithful(StreamView { recv_gaps: r, ..w }, content);
    }
}

/// What a read gives is the stream from where the last one stopped, and the rest of the
/// buffer stays what the stream holds.
pub proof fn lemma_read_in_order(v: StreamView, limit: nat, content: spec_fn(int) -> u8)
    requires
        v.wf(),
        v.faithful(content),
    ensures
        v.read(limit).0.faithful(content),
        v.read(limit).0.wf(),
        v.read(limit).1 matches OutcomeView::Data(d) ==> is_part(d, v.recv_contig as int, content)
            && v.read(limit).0.recv_contig == v.recv_contig + d.len(),
{
    if v.reset_recv is None && v.recv_prefix.len() > 0 {
        let n = min_int(limit as int, v.recv_prefix.len() as int);
        let len = v.recv_prefix.len() as int;
        lemma_part_sub(v.recv_prefix, v.recv_contig as int, 0, n, content);
        lemma_part_sub(v.recv_prefix, v.recv_contig as int, n, len, content);
        assert(v.recv_prefix.take(n) =~= v.recv_prefix.subrange(0, n));
        assert(v.recv_prefix.skip(n) =~= v.recv_prefix.subrange(n, len));
    }
}

// ---------------------------------------------------------------------------
// The stream
// ---------------------------------------------------------------------------

impl StreamState {
    /// A stream that may send up to `peer_limit` and receive up to `peer_send_limit`.
    pub fn new(peer_limit: u64, peer_send_limit: u64) -> (r: Self)
        ensures
            r@ == StreamView::opened(peer_limit, peer_send_limit),
            r@.wf(),
    {
        let r = StreamState {
            send_buf: Vec::new(),
            ack_pos: 0,
            acked_ahead: Vec::new(),
            write_pos: 0,
            sent_through: 0,
            sent_high: 0,
            peer_limit,
            fin_queued: false,
            fin_sent: false,
            fin_acked: false,
            reset_sent: None,
            reset_recv: None,
            recv_prefix: Vec::new(),
            recv_contig: 0,
            recv_gaps: Vec::new(),
            peer_send_limit,
            fin_recv: false,
            fin_recv_offset: 0,
        };
        proof {
            lemma_ahead(0, Seq::empty(), 0, 0);
            assert(r@ =~= StreamView::opened(peer_limit, peer_send_limit));
        }
        r
    }

    /// Whether there is something to send.
    pub fn has_send_data(&self) -> (r: bool)
        ensures
            r == self@.has_send_data(),
    {
        self.sent_through < self.write_pos || (self.fin_queued && !self.fin_sent
            && !self.fin_acked)
    }

    /// Bytes that the peer allows on this stream.
    pub fn peer_limit(&self) -> (r: u64)
        ensures
            r == self@.peer_limit,
    {
        self.peer_limit
    }

    /// Bytes that the peer may send on this stream.
    pub fn peer_send_limit(&self) -> (r: u64)
        ensures
            r == self@.peer_send_limit,
    {
        self.peer_send_limit
    }

    /// Whether there is something to read, or the end is known.
    pub fn is_readable(&self) -> (r: bool)
        ensures
            r == (self@.recv_prefix.len() > 0 || self@.fin_recv),
    {
        self.recv_prefix.len() != 0 || self.fin_recv
    }

    /// Bytes written and not acknowledged.
    pub fn send_buffered(&self) -> (r: u64)
        requires
            self@.wf(),
        ensures
            r == self@.write_pos - self@.ack_pos,
    {
        self.write_pos - self.ack_pos
    }

    /// Bytes waiting to be read; the largest number where there are more.
    fn buffered_recv(&self) -> (r: u64)
        ensures
            r == capped(self@.buffered_recv() as int),
    {
        let ghost g = self@.recv_gaps;
        let mut sum: u64 = self.recv_prefix.len() as u64;
        let mut i: usize = 0;
        proof {
            assert(g.take(0) =~= Seq::empty());
        }
        while i < self.recv_gaps.len()
            invariant
                i <= g.len(),
                g == segments_view(self.recv_gaps@),
                sum == capped((self.recv_prefix@.len() + total(g.take(i as int))) as int),
            decreases g.len() - i,
        {
            proof {
                assert(g.take(i + 1).drop_last() =~= g.take(i as int));
                assert(g.take(i + 1).last() == g[i as int]);
            }
            sum = sum.saturating_add(self.recv_gaps[i].1.len() as u64);
            i = i + 1;
        }
        proof {
            assert(g.take(i as int) =~= g);
        }
        sum
    }

    /// Put the new bytes of a segment that the bytes in order reach behind them.
    fn join(&mut self, offset: u64, data: &[u8])
        requires
            old(self)@.in_order() <= u64::MAX,
            offset <= old(self)@.in_order(),
        ensures
            final(self)@ == old(self)@.joined(offset, data@),
    {
        let skip: u64 = self.recv_contig + self.recv_prefix.len() as u64 - offset;
        if skip < data.len() as u64 {
            let new = slice_subrange(data, skip as usize, data.len());
            extend(&mut self.recv_prefix, new);
            proof {
                assert(new@ =~= data@.skip(skip as int));
            }
        }
        proof {
            assert(self@ =~= old(self)@.joined(offset, data@));
        }
    }

    fn promote_gaps(&mut self)
        requires
            old(self)@.in_order() <= old(self)@.peer_send_limit,
            forall|i: int|
                0 <= i < old(self)@.recv_gaps.len() ==> end_of(#[trigger] old(self)@.recv_gaps[i])
                    <= old(self)@.peer_send_limit,
        ensures
            final(self)@ == old(self)@.promoted(),
    {
        loop
            invariant
                self@.in_order() <= self@.peer_send_limit,
                forall|i: int|
                    0 <= i < self@.recv_gaps.len() ==> end_of(#[trigger] self@.recv_gaps[i])
                        <= self@.peer_send_limit,
                self@.promoted() == old(self)@.promoted(),
            decreases self.recv_gaps@.len(),
        {
            let ghost before = self@;
            proof {
                assert(before.recv_gaps.len() == self.recv_gaps@.len());
            }
            if self.recv_gaps.len() == 0 || self.recv_gaps[0].0 > self.recv_contig
                + self.recv_prefix.len() as u64 {
                return;
            }
            proof {
                assert(end_of(before.recv_gaps[0]) <= before.peer_send_limit);
            }
            let (at, seg) = self.recv_gaps.remove(0);
            let ghost g = before.recv_gaps;
            proof {
                assert(self@.recv_gaps =~= g.skip(1));
                assert(self@ =~= (StreamView { recv_gaps: g.skip(1), ..before }));
            }
            self.join(at, &seg);
            proof {
                assert(self@ =~= (StreamView {
                    recv_gaps: g.skip(1),
                    ..before.joined(g[0].0, g[0].1)
                }));
                assert forall|i: int| 0 <= i < self@.recv_gaps.len() implies end_of(
                    #[trigger] self@.recv_gaps[i],
                ) <= self@.peer_send_limit by {
                    assert(self@.recv_gaps[i] == g[i + 1]);
                }
            }
        }
    }
}

/// The segments with new data among them, as [`with_segment`] says.
fn insert_gap(gaps: &mut Vec<(u64, Vec<u8>)>, offset: u64, data: &[u8])
    requires
        separate(segments_view(old(gaps)@)),
        offset + data@.len() <= u64::MAX,
        forall|i: int|
            0 <= i < old(gaps)@.len() ==> end_of(#[trigger] segments_view(old(gaps)@)[i])
                <= u64::MAX,
    ensures
        segments_view(final(gaps)@) == with_segment(segments_view(old(gaps)@), offset, data@),
{
    let ghost g = segments_view(gaps@);
    let end: u64 = offset + data.len() as u64;
    let mut lo: usize = 0;
    while lo < gaps.len() && (gaps[lo].0 as u128 + gaps[lo].1.len() as u128) < offset as u128
        invariant
            lo <= gaps@.len(),
            g == segments_view(gaps@),
            first_reaching(g, offset, 0) == first_reaching(g, offset, lo as int),
        decreases gaps@.len() - lo,
    {
        lo = lo + 1;
    }
    let mut hi: usize = lo;
    while hi < gaps.len() && gaps[hi].0 <= end
        invariant
            lo <= hi <= gaps@.len(),
            g == segments_view(gaps@),
            first_behind(g, end as int, lo as int) == first_behind(g, end as int, hi as int),
        decreases gaps@.len() - hi,
    {
        hi = hi + 1;
    }
    proof {
        lemma_parted(g, offset, end as int);
        assert(first_behind(g, end as int, lo as int) == hi);
    }
    let mut start: u64 = offset;
    let mut merged: Vec<u8> = Vec::new();
    if lo < hi && gaps[lo].0 < offset {
        proof {
            assert(end_of(g[lo as int]) >= offset);
        }
        start = gaps[lo].0;
        merged = copy_range(&gaps[lo].1, 0, (offset - start) as usize);
    }
    proof {
        assert(merged@ =~= head_of(g, lo as int, hi as int, offset));
    }
    extend(&mut merged, data);
    if lo < hi {
        let at: u64 = gaps[hi - 1].0;
        let len: usize = gaps[hi - 1].1.len();
        proof {
            assert(end_of(g[hi - 1]) <= u64::MAX);
            assert(g[hi - 1].0 <= end);
        }
        if at + len as u64 > end {
            let tail = copy_range(&gaps[hi - 1].1, (end - at) as usize, len);
            proof {
                assert(tail@ =~= tail_of(g, lo as int, hi as int, end as int));
            }
            extend(&mut merged, &tail);
        }
    }
    proof {
        assert((start, merged@) == merged_with(g, lo as int, hi as int, offset, data@)) by {
            let m = merged_with(g, lo as int, hi as int, offset, data@);
            assert(merged@ =~= m.1);
        }
    }
    let ghost whole = gaps@;
    let mut rest = gaps.split_off(hi);
    gaps.truncate(lo);
    gaps.push((start, merged));
    gaps.append(&mut rest);
    proof {
        assert(segments_view(gaps@) =~= with_segment(g, offset, data@));
    }
}

impl StreamState {
    /// Place data that reaches the bytes in order.
    fn append(&mut self, offset: u64, data: &[u8])
        requires
            old(self)@.wf(),
            offset + data@.len() <= old(self)@.peer_send_limit,
            offset <= old(self)@.in_order(),
        ensures
            final(self)@ == old(self)@.placed(offset, data@),
    {
        self.join(offset, data);
        self.promote_gaps();
    }

    /// Place data ahead of the bytes in order.
    fn set_aside(&mut self, offset: u64, data: &[u8])
        requires
            old(self)@.wf(),
            offset + data@.len() <= old(self)@.peer_send_limit,
            offset > old(self)@.in_order(),
        ensures
            final(self)@ == old(self)@.placed(offset, data@),
    {
        let ghost w = self@;
        let ghost g = with_segment(w.recv_gaps, offset, data@);
        proof {
            lemma_with_segment(w.recv_gaps, offset, data@, w.peer_send_limit as int);
            assert forall|i: int| 0 <= i < self.recv_gaps@.len() implies end_of(
                #[trigger] segments_view(self.recv_gaps@)[i],
            ) <= u64::MAX by {
                assert(end_of(w.recv_gaps[i]) <= w.peer_send_limit);
            }
        }
        insert_gap(&mut self.recv_gaps, offset, data);
        proof {
            assert(self@ =~= (StreamView { recv_gaps: g, ..w }));
        }
        self.promote_gaps();
    }

    /// Take the data of a STREAM frame.
    pub fn on_data(&mut self, offset: u64, data: &[u8], fin: bool) -> (r: Result<()>)
        requires
            old(self)@.wf(),
        ensures
            match old(self)@.received(offset, data@, fin) {
                Ok(next) => r is Ok && final(self)@ == next,
                Err(f) => r is Err && r->Err_0@ == f && final(self)@ == old(self)@,
            },
            final(self)@.wf(),
    {
        let len: u64 = data.len() as u64;
        if offset > self.peer_send_limit || len > self.peer_send_limit - offset {
            return Err(protocol("stream flow-control violation"));
        }
        let end: u64 = offset + len;
        if self.buffered_recv().saturating_add(len) > MAX_RECV_BUFFER {
            return Err(protocol("receive buffer overflow"));
        }
        proof {
            lemma_received_wf(self@, offset, data@, fin);
        }
        if fin {
            self.fin_recv = true;
            self.fin_recv_offset = end;
        }
        proof {
            assert(self@ =~= old(self)@.finished_at(fin, end as int));
        }
        if offset <= self.recv_contig + self.recv_prefix.len() as u64 {
            self.append(offset, data);
        } else {
            self.set_aside(offset, data);
        }
        Ok(())
    }

    /// Raise what the peer may send once more than half of it is used; the new limit.
    pub fn credit(&mut self) -> (r: Option<u64>)
        requires
            old(self)@.wf(),
        ensures
            r == old(self)@.next_limit(),
            final(self)@ == old(self)@.credited(),
            final(self)@.wf(),
    {
        let used: u64 = self.recv_contig + self.recv_prefix.len() as u64;
        let window: u64 = self.peer_send_limit;
        if window > 0 && used > window - window / 2 {
            let max: u64 = window.saturating_add(window / 2);
            self.peer_send_limit = max;
            proof {
                assert(self@ =~= (StreamView { peer_send_limit: max, ..old(self)@ }));
            }
            Some(max)
        } else {
            None
        }
    }

    /// Read at most `limit` bytes.
    pub fn read(&mut self, limit: usize) -> (r: RecvOutcome)
        requires
            old(self)@.wf(),
        ensures
            (final(self)@, r@) == old(self)@.read(limit as nat),
            final(self)@.wf(),
    {
        if let Some(code) = self.reset_recv {
            return RecvOutcome::Reset(code);
        }
        if self.recv_prefix.len() != 0 {
            let n: usize = if limit < self.recv_prefix.len() {
                limit
            } else {
                self.recv_prefix.len()
            };
            let data = copy_range(&self.recv_prefix, 0, n);
            drop_front(&mut self.recv_prefix, n);
            self.recv_contig = self.recv_contig + n as u64;
            proof {
                let v = old(self)@;
                assert(data@ =~= v.recv_prefix.take(n as int));
                assert(self@.recv_prefix =~= v.recv_prefix.skip(n as int));
                assert(self@ =~= v.read(limit as nat).0);
            }
            return RecvOutcome::Data(data);
        }
        if self.fin_recv && self.recv_contig >= self.fin_recv_offset {
            RecvOutcome::Eof
        } else {
            RecvOutcome::WouldBlock
        }
    }

    /// Take as much of `data` as may wait for acknowledgement; how much was taken.
    pub fn write(&mut self, data: &[u8]) -> (r: Result<usize>)
        requires
            old(self)@.wf(),
        ensures
            match old(self)@.written(data@) {
                Ok((next, n)) => r is Ok && r->Ok_0 == n && final(self)@ == next,
                Err(f) => r is Err && r->Err_0@ == f && final(self)@ == old(self)@,
            },
            final(self)@.wf(),
    {
        if self.reset_sent.is_some() || self.reset_recv.is_some() {
            return Err(QuicError::StreamReset { error_code: 0 });
        }
        let buffered: u64 = self.write_pos - self.ack_pos;
        if buffered >= MAX_SEND_BUFFER as u64 {
            return Err(QuicError::StreamLimit);
        }
        let room: usize = MAX_SEND_BUFFER - buffered as usize;
        let mut n: usize = if data.len() < room {
            data.len()
        } else {
            room
        };
        if n as u64 > u64::MAX - self.write_pos {
            n = (u64::MAX - self.write_pos) as usize;
        }
        let taken = slice_subrange(data, 0, n);
        extend(&mut self.send_buf, taken);
        self.write_pos = self.write_pos + n as u64;
        proof {
            lemma_ahead(
                self.ack_pos,
                self.acked_ahead@,
                old(self)@.write_pos as int,
                self.write_pos as int,
            );
            assert(taken@ =~= data@.take(n as int));
            assert(self@ =~= old(self)@.written(data@)->Ok_0.0);
        }
        Ok(n)
    }

    /// A frame with `len` bytes at `offset` is acknowledged.
    pub fn on_acked(&mut self, offset: u64, len: usize, fin: bool)
        requires
            old(self)@.wf(),
        ensures
            final(self)@ == old(self)@.acked(offset, len as nat, fin),
            final(self)@.wf(),
    {
        let end: u128 = offset as u128 + len as u128;
        let through: u128 = self.sent_through as u128;
        let pos: u64 = acknowledge(
            self.ack_pos,
            &mut self.acked_ahead,
            self.write_pos,
            offset,
            len,
        );
        let held: usize = self.send_buf.len();
        let drain: usize = (pos - self.ack_pos) as usize;
        proof {
            assert(drain <= held);
        }
        drop_front(&mut self.send_buf, drain);
        self.ack_pos = pos;
        if self.sent_through < pos {
            self.sent_through = pos;
        }
        if self.sent_high < pos {
            self.sent_high = pos;
        }
        if fin && end >= through {
            self.fin_acked = true;
        }
        proof {
            assert(self@ =~= old(self)@.acked(offset, len as nat, fin));
        }
    }

    /// A frame at `offset` is lost.
    pub fn on_lost(&mut self, offset: u64, fin: bool)
        requires
            old(self)@.wf(),
        ensures
            final(self)@ == old(self)@.lost(offset, fin),
            final(self)@.wf(),
    {
        if offset < self.sent_through {
            self.sent_through = if offset > self.ack_pos {
                offset
            } else {
                self.ack_pos
            };
        }
        if fin {
            self.fin_sent = false;
        }
        proof {
            assert(self@ =~= old(self)@.lost(offset, fin));
        }
    }

    /// Bytes that the next frame may carry.
    fn frame_len(&self, send_limit: u64, credit: u64, budget: u64) -> (n: u64)
        requires
            self@.wf(),
        ensures
            n == self@.frame_len(send_limit, credit, budget),
            self@.sent_through + n <= self@.write_pos,
    {
        let mut end: u64 = self.sent_high.saturating_add(credit);
        if send_limit < end {
            end = send_limit;
        }
        if self.write_pos < end {
            end = self.write_pos;
        }
        let n: u64 = end.saturating_sub(self.sent_through);
        if budget < n {
            budget
        } else {
            n
        }
    }

    /// The next frame of the stream, and the credit of the connection that it uses.
    pub fn take_frame(&mut self, id: u64, send_limit: u64, credit: u64, budget: u64) -> (r: (
        Option<Outgoing>,
        u64,
    ))
        requires
            old(self)@.wf(),
        ensures
            final(self)@ == old(self)@.next_frame(id, send_limit, credit, budget).0,
            match old(self)@.next_frame(id, send_limit, credit, budget).1 {
                Some(f) => r.0 is Some && r.0->Some_0@ == f,
                None => r.0 is None,
            },
            r.1 == old(self)@.next_frame(id, send_limit, credit, budget).2,
            final(self)@.wf(),
    {
        if self.reset_sent.is_some() {
            return (None, 0);
        }
        let n: u64 = self.frame_len(send_limit, credit, budget);
        let through: u64 = self.sent_through + n;
        let fin = self.fin_queued && !self.fin_sent && !self.fin_acked && through
            == self.write_pos;
        if n == 0 && !fin {
            return (None, 0);
        }
        let held: usize = self.send_buf.len();
        proof {
            assert(self@.write_pos - self@.ack_pos == held);
        }
        let start: usize = (self.sent_through - self.ack_pos) as usize;
        let data = copy_range(&self.send_buf, start, start + n as usize);
        let used: u64 = through.saturating_sub(self.sent_high);
        let offset: u64 = self.sent_through;
        self.sent_through = through;
        if self.sent_high < through {
            self.sent_high = through;
        }
        if fin {
            self.fin_sent = true;
        }
        proof {
            let v = old(self)@;
            assert(self@ =~= v.next_frame(id, send_limit, credit, budget).0);
        }
        (Some(Outgoing::Stream { stream_id: id, offset, data, fin }), used)
    }

    /// Queue the end of the stream.
    pub fn finish(&mut self)
        ensures
            final(self)@ == (StreamView { fin_queued: true, ..old(self)@ }),
            old(self)@.wf() ==> final(self)@.wf(),
    {
        self.fin_queued = true;
        proof {
            assert(self@ =~= (StreamView { fin_queued: true, ..old(self)@ }));
        }
    }

    /// The peer gave the stream up.
    pub fn on_reset(&mut self, error_code: u64)
        ensures
            final(self)@ == (StreamView { reset_recv: Some(error_code), ..old(self)@ }),
            old(self)@.wf() ==> final(self)@.wf(),
    {
        self.reset_recv = Some(error_code);
        proof {
            assert(self@ =~= (StreamView { reset_recv: Some(error_code), ..old(self)@ }));
        }
    }

    /// The peer allows more on this stream. A smaller limit is ignored.
    pub fn on_max_stream_data(&mut self, max: u64)
        ensures
            final(self)@ == (StreamView {
                peer_limit: max_int(old(self)@.peer_limit as int, max as int) as u64,
                ..old(self)@
            }),
            old(self)@.wf() ==> final(self)@.wf(),
    {
        if max > self.peer_limit {
            self.peer_limit = max;
        }
        proof {
            assert(self@ =~= (StreamView {
                peer_limit: max_int(old(self)@.peer_limit as int, max as int) as u64,
                ..old(self)@
            }));
        }
    }
}

/// Bytes that were sent before use no credit of the connection when they are sent again:
/// a frame uses exactly what it adds to the largest offset sent so far.
pub proof fn lemma_credit_used_once(v: StreamView, id: u64, send_limit: u64, credit: u64, budget: u64)
    requires
        v.wf(),
    ensures
        v.next_frame(id, send_limit, credit, budget).2 == v.next_frame(
            id,
            send_limit,
            credit,
            budget,
        ).0.sent_high - v.sent_high,
        v.next_frame(id, send_limit, credit, budget).2 <= credit,
        v.next_frame(id, send_limit, credit, budget).1 matches Some(
            OutgoingView::Stream { data, .. },
        ) ==> data.len() <= budget,
        v.next_frame(id, send_limit, credit, budget).1 matches Some(
            OutgoingView::Stream { data, .. },
        ) ==> data.len() > 0 ==> v.next_frame(
            id,
            send_limit,
            credit,
            budget,
        ).0.sent_through <= send_limit,
{
}

// ---------------------------------------------------------------------------
// Sending again
// ---------------------------------------------------------------------------

/// An acknowledged frame takes exactly its bytes out of those that are outstanding, and
/// every byte that stays outstanding is kept as it was written.
pub proof fn lemma_acked_outstanding(v: StreamView, offset: u64, len: nat, fin: bool, at: int)
    requires
        v.wf(),
    ensures
        v.acked(offset, len, fin).wf(),
        v.acked(offset, len, fin).outstanding(at) == (v.outstanding(at) && !(offset <= at < offset
            + len)),
        v.acked(offset, len, fin).outstanding(at) ==> v.acked(offset, len, fin).byte(at) == v.byte(
            at,
        ),
{
    lemma_acknowledged(v.ack_pos, v.acked_ahead, v.write_pos, offset, len, at);
}

/// Whether a frame carries a byte at an offset.
pub open spec fn carries(f: Option<OutgoingView>, at: int, byte: u8) -> bool {
    f matches Some(OutgoingView::Stream { stream_id, offset, data, fin }) && offset <= at < offset
        + data.len() && data[at - offset] == byte
}

impl StreamView {
    /// The frame that reaches an offset, among the next frames of the stream, where each may
    /// take as much as the room in a packet and what is left of the credit allow.
    pub open spec fn reaching(
        self,
        id: u64,
        send_limit: u64,
        credit: u64,
        budget: u64,
        at: int,
    ) -> Option<OutgoingView>
        decreases at - self.sent_through,
    {
        let (next, frame, used) = self.next_frame(id, send_limit, credit, budget);
        if frame is None || next.sent_through > at {
            frame
        } else if next.sent_through > self.sent_through {
            next.reaching(id, send_limit, minus(credit, used), budget, at)
        } else {
            None
        }
    }
}

proof fn lemma_reaching_carries(
    v: StreamView,
    id: u64,
    send_limit: u64,
    credit: u64,
    budget: u64,
    at: int,
)
    requires
        v.wf(),
        v.reset_sent is None,
        v.sent_through <= at < v.write_pos,
        at < send_limit,
        at < v.sent_high + credit,
        budget > 0,
    ensures
        carries(v.reaching(id, send_limit, credit, budget, at), at, v.byte(at)),
    decreases at - v.sent_through,
{
    let (next, frame, used) = v.next_frame(id, send_limit, credit, budget);
    if next.sent_through <= at {
        lemma_reaching_carries(next, id, send_limit, minus(credit, used), budget, at);
    }
}

/// A lost byte is sent again: where a frame is lost, every byte of it that is still
/// outstanding waits to be sent, whatever else was acknowledged, and the next frames reach
/// it and carry what was written. It takes no credit beyond what it took the first time.
pub proof fn lemma_lost_is_sent_again(v: StreamView, offset: u64, len: nat, fin: bool, at: int)
    requires
        v.wf(),
        v.outstanding(at),
        offset <= at < offset + len,
    ensures
        ({
            let w = v.lost(offset, fin);
            &&& w.wf()
            &&& w.has_send_data()
            &&& w.outstanding(at)
            &&& w.sent_through <= at
            &&& forall|id: u64, send_limit: u64, credit: u64, budget: u64|
                v.reset_sent is None && at < send_limit && at < v.sent_high + credit && budget > 0
                    ==> carries(
                    #[trigger] w.reaching(id, send_limit, credit, budget, at),
                    at,
                    v.byte(at),
                )
        }),
{
    let w = v.lost(offset, fin);
    assert forall|id: u64, send_limit: u64, credit: u64, budget: u64|
        v.reset_sent is None && at < send_limit && at < v.sent_high + credit && budget
            > 0 implies carries(
        #[trigger] w.reaching(id, send_limit, credit, budget, at),
        at,
        v.byte(at),
    ) by {
        lemma_reaching_carries(w, id, send_limit, credit, budget, at);
    }
}

/// A lost end is sent again: it is due, and the frame that carries the last byte, or one
/// without bytes where none is left, carries it. No credit is needed for it.
pub proof fn lemma_lost_end_is_sent_again(
    v: StreamView,
    offset: u64,
    id: u64,
    send_limit: u64,
    credit: u64,
    budget: u64,
)
    requires
        v.wf(),
        v.fin_queued,
        !v.fin_acked,
        v.reset_sent is None,
    ensures
        ({
            let w = v.lost(offset, true);
            let (next, frame, used) = w.next_frame(id, send_limit, credit, budget);
            &&& w.has_send_data()
            &&& next.sent_through == v.write_pos ==> frame is Some && frame->0->fin
        }),
{
}

} // verus!
