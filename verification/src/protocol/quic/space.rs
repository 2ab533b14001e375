//! A packet-number space: packet numbers, acknowledgements, sent packets and the CRYPTO
//! stream.

use super::ack::{ack_ranges, ascending, is_named, names, AckQueue, MAX_ACK_QUEUE};
use super::error::{protocol, QuicFault, Result};
use super::frame::{frames_view, Outgoing, OutgoingView};
use super::protect::{PacketKey, PacketKeyView};
use super::ranges::{
    acknowledge, acknowledged, ahead, in_ranges, lemma_acknowledged, lemma_ahead,
};
use super::recovery::{capped, max_int, min_int, Recovery};
use super::tls13::opt_key;
use crate::wire::{copy_range, drop_front, extend};
use std::collections::VecDeque;
use vstd::prelude::*;
use vstd::slice::*;

verus! {

/// The packet-number spaces.
#[derive(Debug, Clone, Copy, PartialEq, Eq, Structural)]
pub enum PnSpace {
    Initial,
    Handshake,
    Application,
}

impl PnSpace {
    /// The place of the space in a connection.
    pub open spec fn place(self) -> int {
        match self {
            PnSpace::Initial => 0,
            PnSpace::Handshake => 1,
            PnSpace::Application => 2,
        }
    }

    pub fn index(self) -> (r: usize)
        ensures
            r == self.place(),
            r < 3,
    {
        match self {
            PnSpace::Initial => 0,
            PnSpace::Handshake => 1,
            PnSpace::Application => 2,
        }
    }
}

/// One sent packet, kept until it is acknowledged or lost.
#[derive(Debug)]
pub struct SentPacket {
    pub pn: u64,
    pub time: u64,
    pub size: usize,
    pub ack_eliciting: bool,
    pub in_flight: bool,
    pub frames: Vec<Outgoing>,
}

/// A sent packet as a mathematical value.
#[verifier::ext_equal]
pub struct SentView {
    pub pn: u64,
    pub time: u64,
    pub size: nat,
    pub ack_eliciting: bool,
    pub in_flight: bool,
    pub frames: Seq<OutgoingView>,
}

impl View for SentPacket {
    type V = SentView;

    open spec fn view(&self) -> SentView {
        SentView {
            pn: self.pn,
            time: self.time,
            size: self.size as nat,
            ack_eliciting: self.ack_eliciting,
            in_flight: self.in_flight,
            frames: frames_view(self.frames@),
        }
    }
}

/// Sent packets as mathematical values.
pub open spec fn sent_view(v: Seq<SentPacket>) -> Seq<SentView> {
    Seq::new(v.len(), |i: int| v[i]@)
}

/// What an ACK frame makes of the sent packets.
#[verifier::ext_equal]
pub struct Sorted {
    /// Frames that arrived.
    pub acked: Seq<OutgoingView>,
    /// Frames of packets that count as lost.
    pub lost: Seq<OutgoingView>,
    /// Packets that are still out.
    pub kept: Seq<SentView>,
    /// Bytes in flight behind it.
    pub in_flight: u64,
    /// When the last acknowledged packet that asked for it was sent.
    pub newest: Option<u64>,
}

/// The sent packets sorted by an ACK frame that names some intervals: arrived, lost or
/// still out.
pub open spec fn sorted(
    sent: Seq<SentView>,
    intervals: Seq<(u64, u64)>,
    recovery: Recovery,
    now: u64,
) -> Sorted
    decreases sent.len(),
{
    if sent.len() == 0 {
        Sorted {
            acked: Seq::empty(),
            lost: Seq::empty(),
            kept: Seq::empty(),
            in_flight: recovery.bytes_in_flight,
            newest: None,
        }
    } else {
        let p = sent.last();
        let s = sorted(sent.drop_last(), intervals, recovery, now);
        let in_flight = if p.in_flight {
            max_int(s.in_flight - p.size, 0) as u64
        } else {
            s.in_flight
        };
        if names(intervals, p.pn) {
            Sorted {
                acked: s.acked + p.frames,
                in_flight,
                newest: if p.ack_eliciting {
                    Some(p.time)
                } else {
                    s.newest
                },
                ..s
            }
        } else if p.in_flight && recovery.overdue(p.time, now) {
            Sorted { lost: s.lost + p.frames, in_flight, ..s }
        } else {
            Sorted { kept: s.kept.push(p), ..s }
        }
    }
}

/// Bytes of the sent packets that count as in flight.
pub open spec fn flight(sent: Seq<SentView>) -> nat
    decreases sent.len(),
{
    if sent.len() == 0 {
        0
    } else {
        flight(sent.drop_last()) + if sent.last().in_flight {
            sent.last().size
        } else {
            0
        }
    }
}

/// A space as a mathematical value.
#[verifier::ext_equal]
pub struct SpaceView {
    /// Number of the next packet.
    pub next_pn: u64,
    /// Largest packet number received.
    pub largest_recv_pn: u64,
    /// Packet numbers to acknowledge, ascending.
    pub ack_queue: Seq<u64>,
    /// Whether an ACK frame is due.
    pub ack_pending: bool,
    /// Packets that are still out.
    pub sent: Seq<SentView>,
    /// CRYPTO bytes received and not consumed.
    pub crypto_recv: Seq<u8>,
    /// How many CRYPTO bytes were consumed before them.
    pub crypto_consumed: u64,
    /// CRYPTO bytes from `crypto_acked` to `crypto_written`.
    pub crypto_send: Seq<u8>,
    /// Every CRYPTO byte before this offset is acknowledged.
    pub crypto_acked: u64,
    /// What is acknowledged ahead of it.
    pub crypto_acked_ahead: Seq<(u64, u64)>,
    pub crypto_sent: u64,
    pub crypto_written: u64,
    pub key: Option<PacketKeyView>,
    pub write_key: Option<PacketKeyView>,
}

/// A packet-number space.
#[derive(Debug)]
pub struct Space {
    pub next_pn: u64,
    pub largest_recv_pn: u64,
    pub ack_queue: AckQueue,
    pub ack_pending: bool,
    pub sent: VecDeque<SentPacket>,
    pub crypto_recv: Vec<u8>,
    pub crypto_consumed: u64,
    pub crypto_send: Vec<u8>,
    pub crypto_acked: u64,
    pub crypto_acked_ahead: Vec<(u64, u64)>,
    pub crypto_sent: u64,
    pub crypto_written: u64,
    pub key: Option<PacketKey>,
    pub write_key: Option<PacketKey>,
}

impl View for Space {
    type V = SpaceView;

    open spec fn view(&self) -> SpaceView {
        SpaceView {
            next_pn: self.next_pn,
            largest_recv_pn: self.largest_recv_pn,
            ack_queue: self.ack_queue@,
            ack_pending: self.ack_pending,
            sent: sent_view(self.sent@),
            crypto_recv: self.crypto_recv@,
            crypto_consumed: self.crypto_consumed,
            crypto_send: self.crypto_send@,
            crypto_acked: self.crypto_acked,
            crypto_acked_ahead: self.crypto_acked_ahead@,
            crypto_sent: self.crypto_sent,
            crypto_written: self.crypto_written,
            key: opt_key(self.key),
            write_key: opt_key(self.write_key),
        }
    }
}

/// Bytes with `data` placed at `offset`, over what was there.
pub open spec fn spliced(buf: Seq<u8>, offset: int, data: Seq<u8>) -> Seq<u8> {
    buf.take(offset) + data + (if offset + data.len() < buf.len() {
        buf.skip(offset + data.len())
    } else {
        Seq::empty()
    })
}

impl SpaceView {
    /// A space without keys or packets.
    pub open spec fn unused() -> SpaceView {
        SpaceView {
            next_pn: 0,
            largest_recv_pn: 0,
            ack_queue: Seq::empty(),
            ack_pending: false,
            sent: Seq::empty(),
            crypto_recv: Seq::empty(),
            crypto_consumed: 0,
            crypto_send: Seq::empty(),
            crypto_acked: 0,
            crypto_acked_ahead: Seq::empty(),
            crypto_sent: 0,
            crypto_written: 0,
            key: None,
            write_key: None,
        }
    }

    /// The packet numbers are in order and bounded in number, offsets count the CRYPTO bytes
    /// received, the CRYPTO buffer holds what is written from the first byte on that is not
    /// acknowledged, at least a byte is missing before what is acknowledged ahead, and keys
    /// can be derived.
    pub open spec fn wf(self) -> bool {
        &&& ascending(self.ack_queue)
        &&& self.ack_queue.len() <= MAX_ACK_QUEUE
        &&& self.crypto_end() <= u64::MAX
        &&& self.crypto_acked <= self.crypto_sent <= self.crypto_written
        &&& self.crypto_send.len() == self.crypto_written - self.crypto_acked
        &&& ahead(self.crypto_acked, self.crypto_acked_ahead, self.crypto_written as int)
        &&& self.key is Some ==> self.key->0.usable()
        &&& self.write_key is Some ==> self.write_key->0.usable()
    }

    /// Offset of the first CRYPTO byte that has not come.
    pub open spec fn crypto_end(self) -> int {
        self.crypto_consumed + self.crypto_recv.len()
    }

    /// After CRYPTO data at an offset of the stream, as far as offsets can count it, or why
    /// it is refused. What was consumed before is passed over.
    pub open spec fn with_crypto(self, offset: u64, data: Seq<u8>) -> core::result::Result<
        SpaceView,
        QuicFault,
    > {
        let n = min_int(data.len() as int, u64::MAX - offset);
        let passed = max_int(self.crypto_consumed - offset, 0);
        if offset > self.crypto_end() {
            Err(QuicFault::Protocol("CRYPTO gap from peer"@))
        } else if passed >= n {
            Ok(self)
        } else {
            Ok(
                SpaceView {
                    crypto_recv: spliced(
                        self.crypto_recv,
                        max_int(offset - self.crypto_consumed, 0),
                        data.subrange(passed, n),
                    ),
                    ..self
                },
            )
        }
    }

    /// After the first `n` CRYPTO bytes of the buffer are consumed.
    pub open spec fn crypto_read(self, n: int) -> SpaceView {
        SpaceView {
            crypto_recv: self.crypto_recv.skip(n),
            crypto_consumed: (self.crypto_consumed + n) as u64,
            ..self
        }
    }

    /// With more CRYPTO bytes to send, as far as offsets can count them.
    pub open spec fn queued(self, bytes: Seq<u8>) -> SpaceView {
        let n = min_int(bytes.len() as int, u64::MAX - self.crypto_written);
        SpaceView {
            crypto_send: self.crypto_send + bytes.take(n),
            crypto_written: (self.crypto_written + n) as u64,
            ..self
        }
    }

    /// The next CRYPTO frame with at most `limit` bytes.
    pub open spec fn next_crypto(self, limit: nat) -> Option<OutgoingView> {
        let start = self.crypto_sent - self.crypto_acked;
        let n = min_int(limit as int, self.crypto_written - self.crypto_sent);
        if n == 0 {
            None
        } else {
            Some(
                OutgoingView::Crypto {
                    offset: self.crypto_sent,
                    data: self.crypto_send.subrange(start, start + n),
                },
            )
        }
    }

    /// Whether the CRYPTO byte at an offset is written and not acknowledged.
    pub open spec fn crypto_outstanding(self, at: int) -> bool {
        self.crypto_acked <= at < self.crypto_written && !in_ranges(self.crypto_acked_ahead, at)
    }

    /// The CRYPTO byte at an offset that is kept to be sent again.
    pub open spec fn crypto_byte(self, at: int) -> u8 {
        self.crypto_send[at - self.crypto_acked]
    }

    /// After a CRYPTO frame with `len` bytes at `offset` is acknowledged: a byte is given up
    /// once it and all before it are.
    pub open spec fn crypto_acknowledged(self, offset: u64, len: nat) -> SpaceView {
        let (pos, crypto_acked_ahead) = acknowledged(
            self.crypto_acked,
            self.crypto_acked_ahead,
            self.crypto_written,
            offset,
            len,
        );
        SpaceView {
            crypto_send: self.crypto_send.skip(pos - self.crypto_acked),
            crypto_acked: pos,
            crypto_acked_ahead,
            crypto_sent: max_int(self.crypto_sent as int, pos as int) as u64,
            ..self
        }
    }

    /// After a CRYPTO frame at `offset` is lost.
    pub open spec fn crypto_lost(self, offset: u64) -> SpaceView {
        if offset < self.crypto_sent {
            SpaceView {
                crypto_sent: max_int(offset as int, self.crypto_acked as int) as u64,
                ..self
            }
        } else {
            self
        }
    }

    /// Once its keys are discarded: nothing that was sent is waited for any more.
    pub open spec fn discarded(self) -> SpaceView {
        SpaceView { key: None, write_key: None, sent: Seq::empty(), ..self }
    }

    /// The ACK frame that is due.
    pub open spec fn ack_frame(self) -> Option<OutgoingView> {
        if self.ack_queue.len() == 0 {
            None
        } else {
            Some(
                OutgoingView::Ack {
                    largest: self.ack_queue.last(),
                    ranges: ack_ranges(self.ack_queue),
                },
            )
        }
    }
}

impl Space {
    pub fn new() -> (r: Self)
        ensures
            r@ == SpaceView::unused(),
            r@.wf(),
    {
        let r = Space {
            next_pn: 0,
            largest_recv_pn: 0,
            ack_queue: AckQueue::new(),
            ack_pending: false,
            sent: VecDeque::new(),
            crypto_recv: Vec::new(),
            crypto_consumed: 0,
            crypto_send: Vec::new(),
            crypto_acked: 0,
            crypto_acked_ahead: Vec::new(),
            crypto_sent: 0,
            crypto_written: 0,
            key: None,
            write_key: None,
        };
        proof {
            lemma_ahead(0, Seq::empty(), 0, 0);
            assert(r@ =~= SpaceView::unused());
        }
        r
    }

    /// Whether CRYPTO bytes wait to be sent.
    pub fn has_crypto_to_send(&self) -> (r: bool)
        ensures
            r == (self@.crypto_sent < self@.crypto_written),
    {
        self.crypto_sent < self.crypto_written
    }

    /// Take CRYPTO data at an offset of the stream.
    pub fn receive_crypto(&mut self, offset: u64, data: &[u8]) -> (r: Result<()>)
        requires
            old(self)@.wf(),
        ensures
            match old(self)@.with_crypto(offset, data@) {
                Ok(next) => r is Ok && final(self)@ == next,
                Err(f) => r is Err && r->Err_0@ == f && final(self)@ == old(self)@,
            },
            final(self)@.wf(),
    {
        let held: usize = self.crypto_recv.len();
        if offset > self.crypto_consumed + held as u64 {
            return Err(protocol("CRYPTO gap from peer"));
        }
        let mut n: usize = data.len();
        if n as u64 > u64::MAX - offset {
            n = (u64::MAX - offset) as usize;
        }
        let (start, passed): (u64, u64) = if offset < self.crypto_consumed {
            (0, self.crypto_consumed - offset)
        } else {
            (offset - self.crypto_consumed, 0)
        };
        if passed >= n as u64 {
            return Ok(());
        }
        let (start, passed): (usize, usize) = (start as usize, passed as usize);
        let fresh = slice_subrange(data, passed, n);
        let mut next = copy_range(&self.crypto_recv, 0, start);
        extend(&mut next, fresh);
        if fresh.len() < held - start {
            let rest = slice_subrange(self.crypto_recv.as_slice(), start + fresh.len(), held);
            proof {
                assert(rest@ =~= self.crypto_recv@.skip(start + fresh@.len()));
            }
            extend(&mut next, rest);
        }
        proof {
            assert(next@ =~= spliced(self.crypto_recv@, start as int, fresh@));
        }
        self.crypto_recv = next;
        proof {
            assert(self@ =~= old(self)@.with_crypto(offset, data@)->Ok_0);
        }
        Ok(())
    }

    /// Forget the first `n` CRYPTO bytes received.
    pub fn consumed_crypto(&mut self, n: usize)
        requires
            old(self)@.wf(),
            n <= old(self)@.crypto_recv.len(),
        ensures
            final(self)@ == old(self)@.crypto_read(n as int),
            final(self)@.wf(),
    {
        drop_front(&mut self.crypto_recv, n);
        self.crypto_consumed = self.crypto_consumed + n as u64;
        proof {
            assert(self@ =~= old(self)@.crypto_read(n as int));
        }
    }

    /// Queue CRYPTO bytes.
    pub fn queue_crypto(&mut self, bytes: &[u8])
        requires
            old(self)@.wf(),
        ensures
            final(self)@ == old(self)@.queued(bytes@),
            final(self)@.wf(),
    {
        let mut n: usize = bytes.len();
        if n as u64 > u64::MAX - self.crypto_written {
            n = (u64::MAX - self.crypto_written) as usize;
        }
        let taken = slice_subrange(bytes, 0, n);
        extend(&mut self.crypto_send, taken);
        self.crypto_written = self.crypto_written + n as u64;
        proof {
            lemma_ahead(
                self.crypto_acked,
                self.crypto_acked_ahead@,
                old(self)@.crypto_written as int,
                self.crypto_written as int,
            );
            assert(taken@ =~= bytes@.take(n as int));
            assert(self@ =~= old(self)@.queued(bytes@));
        }
    }

    /// The next CRYPTO frame with at most `limit` bytes.
    pub fn crypto_frame(&self, limit: usize) -> (r: Option<Outgoing>)
        requires
            self@.wf(),
        ensures
            match self@.next_crypto(limit as nat) {
                Some(f) => r is Some && r->Some_0@ == f,
                None => r is None,
            },
    {
        let held: usize = self.crypto_send.len();
        proof {
            assert(self@.crypto_written - self@.crypto_acked == held);
        }
        let start: usize = (self.crypto_sent - self.crypto_acked) as usize;
        let left: usize = (self.crypto_written - self.crypto_sent) as usize;
        let n: usize = if limit < left {
            limit
        } else {
            left
        };
        if n == 0 {
            return None;
        }
        let data = copy_range(&self.crypto_send, start, start + n);
        Some(Outgoing::Crypto { offset: self.crypto_sent, data })
    }

    /// A CRYPTO frame with `len` bytes at `offset` is acknowledged.
    pub fn on_crypto_acked(&mut self, offset: u64, len: usize)
        requires
            old(self)@.wf(),
        ensures
            final(self)@ == old(self)@.crypto_acknowledged(offset, len as nat),
            final(self)@.wf(),
    {
        let pos: u64 = acknowledge(
            self.crypto_acked,
            &mut self.crypto_acked_ahead,
            self.crypto_written,
            offset,
            len,
        );
        let held: usize = self.crypto_send.len();
        let drain: usize = (pos - self.crypto_acked) as usize;
        proof {
            assert(drain <= held);
        }
        drop_front(&mut self.crypto_send, drain);
        self.crypto_acked = pos;
        if self.crypto_sent < pos {
            self.crypto_sent = pos;
        }
        proof {
            assert(self@ =~= old(self)@.crypto_acknowledged(offset, len as nat));
        }
    }

    /// A CRYPTO frame at `offset` is lost.
    pub fn on_crypto_lost(&mut self, offset: u64)
        requires
            old(self)@.wf(),
        ensures
            final(self)@ == old(self)@.crypto_lost(offset),
            final(self)@.wf(),
    {
        if offset < self.crypto_sent {
            self.crypto_sent = if offset > self.crypto_acked {
                offset
            } else {
                self.crypto_acked
            };
        }
        proof {
            assert(self@ =~= old(self)@.crypto_lost(offset));
        }
    }

    /// Discard the keys and what is remembered of sent packets; the bytes of these that count
    /// as in flight.
    pub fn discard(&mut self) -> (r: u64)
        requires
            old(self)@.wf(),
        ensures
            r == capped(flight(old(self)@.sent) as int),
            final(self)@ == old(self)@.discarded(),
            final(self)@.wf(),
    {
        let ghost all = self@.sent;
        let mut sum: u64 = 0;
        let mut i: usize = 0;
        proof {
            assert(all.take(0) =~= Seq::empty());
        }
        while i < self.sent.len()
            invariant
                i <= self.sent@.len(),
                self@ == old(self)@,
                all == sent_view(self.sent@),
                sum == capped(flight(all.take(i as int)) as int),
            decreases self.sent@.len() - i,
        {
            proof {
                assert(all.take(i + 1).drop_last() =~= all.take(i as int));
                assert(all.take(i + 1).last() == all[i as int]);
                assert(all[i as int] == self.sent@[i as int]@);
            }
            if self.sent[i].in_flight {
                sum = sum.saturating_add(self.sent[i].size as u64);
            }
            i = i + 1;
        }
        self.sent = VecDeque::new();
        self.key = None;
        self.write_key = None;
        proof {
            assert(all.take(i as int) =~= all);
            assert(self@.sent =~= Seq::empty());
            assert(self@ =~= old(self)@.discarded());
        }
        sum
    }

    /// The ACK frame that is due.
    pub fn build_ack(&self) -> (r: Option<Outgoing>)
        requires
            self@.wf(),
        ensures
            match self@.ack_frame() {
                Some(f) => r is Some && r->Some_0@ == f,
                None => r is None,
            },
    {
        match self.ack_queue.largest() {
            None => None,
            Some(largest) => Some(
                Outgoing::Ack { largest, ranges: self.ack_queue.build_ack_ranges() },
            ),
        }
    }
}

/// The frames of acknowledged and of lost packets, the bytes in flight behind them, and
/// when the last acknowledged packet that asked for it was sent.
pub struct SortedFrames {
    pub acked: Vec<Outgoing>,
    pub lost: Vec<Outgoing>,
    pub in_flight: u64,
    pub newest: Option<u64>,
}

impl Space {
    /// Take acknowledged and lost packets off the list of sent ones.
    pub fn sort_sent(&mut self, intervals: &Vec<(u64, u64)>, recovery: &Recovery, now: u64) -> (r:
        SortedFrames)
        ensures
            ({
                let s = sorted(old(self)@.sent, intervals@, *recovery, now);
                &&& frames_view(r.acked@) == s.acked
                &&& frames_view(r.lost@) == s.lost
                &&& r.in_flight == s.in_flight
                &&& r.newest == s.newest
                &&& final(self)@ == (SpaceView { sent: s.kept, ..old(self)@ })
            }),
    {
        let mut rest: VecDeque<SentPacket> = VecDeque::new();
        core::mem::swap(&mut rest, &mut self.sent);
        let ghost all = old(self)@.sent;
        let mut kept: VecDeque<SentPacket> = VecDeque::new();
        let mut r = SortedFrames {
            acked: Vec::new(),
            lost: Vec::new(),
            in_flight: recovery.bytes_in_flight,
            newest: None,
        };
        let ghost mut done: int = 0;
        proof {
            assert(all.take(0) =~= Seq::empty());
            assert(sent_view(rest@) =~= all.skip(0));
            assert(frames_view(r.acked@) =~= Seq::empty());
            assert(frames_view(r.lost@) =~= Seq::empty());
            assert(sent_view(kept@) =~= Seq::empty());
        }
        loop
            invariant
                0 <= done <= all.len(),
                sent_view(rest@) == all.skip(done),
                ({
                    let s = sorted(all.take(done), intervals@, *recovery, now);
                    &&& frames_view(r.acked@) == s.acked
                    &&& frames_view(r.lost@) == s.lost
                    &&& r.in_flight == s.in_flight
                    &&& r.newest == s.newest
                    &&& sent_view(kept@) == s.kept
                }),
            ensures
                done == all.len(),
            decreases rest@.len(),
        {
            let ghost s = sorted(all.take(done), intervals@, *recovery, now);
            let ghost before = rest@;
            proof {
                assert(sent_view(before).len() == before.len());
                assert(all.skip(done).len() == all.len() - done);
            }
            let p = match rest.pop_front() {
                Some(p) => p,
                None => {
                    break;
                },
            };
            proof {
                assert(sent_view(before)[0] == before[0]@);
                assert(all.skip(done)[0] == all[done]);
                assert(p@ == all[done]);
                assert(sent_view(rest@) =~= sent_view(before).skip(1));
                assert(all.skip(done).skip(1) =~= all.skip(done + 1));
                assert(all.take(done + 1).drop_last() =~= all.take(done));
                assert(all.take(done + 1).last() == all[done]);
            }
            if is_named(intervals, p.pn) {
                if p.in_flight {
                    r.in_flight = r.in_flight.saturating_sub(p.size as u64);
                }
                if p.ack_eliciting {
                    r.newest = Some(p.time);
                }
                let mut frames = p.frames;
                let ghost (a, b) = (r.acked@, frames@);
                r.acked.append(&mut frames);
                proof {
                    assert(frames_view(r.acked@) =~= frames_view(a) + frames_view(b));
                }
            } else if p.in_flight && recovery.is_overdue(p.time, now) {
                r.in_flight = r.in_flight.saturating_sub(p.size as u64);
                let mut frames = p.frames;
                let ghost (a, b) = (r.lost@, frames@);
                r.lost.append(&mut frames);
                proof {
                    assert(frames_view(r.lost@) =~= frames_view(a) + frames_view(b));
                }
            } else {
                let ghost a = kept@;
                kept.push_back(p);
                proof {
                    assert(sent_view(kept@) =~= sent_view(a).push(p@));
                }
            }
            proof {
                done = done + 1;
            }
        }
        proof {
            assert(all.take(done) =~= all);
        }
        self.sent = kept;
        proof {
            assert(self@ =~= (SpaceView {
                sent: sorted(all, intervals@, *recovery, now).kept,
                ..old(self)@
            }));
        }
        r
    }
}

/// A space that CRYPTO data came to piece by piece, each right behind the one before, where
/// `reads[i]` bytes of the buffer were consumed behind piece `i`.
pub open spec fn fed(s: SpaceView, pieces: Seq<Seq<u8>>, reads: Seq<int>) -> core::result::Result<
    SpaceView,
    QuicFault,
>
    decreases pieces.len(),
{
    if pieces.len() == 0 {
        Ok(s)
    } else {
        match fed(s, pieces.drop_last(), reads) {
            Err(f) => Err(f),
            Ok(p) => match p.with_crypto(p.crypto_end() as u64, pieces.last()) {
                Err(f) => Err(f),
                Ok(q) => Ok(q.crypto_read(reads[pieces.len() - 1])),
            },
        }
    }
}

/// Whether no read goes behind what has come.
pub open spec fn reads_fit(s: SpaceView, pieces: Seq<Seq<u8>>, reads: Seq<int>) -> bool
    decreases pieces.len(),
{
    pieces.len() == 0 || {
        &&& reads_fit(s, pieces.drop_last(), reads)
        &&& fed(s, pieces.drop_last(), reads) matches Ok(p) ==> 0 <= reads[pieces.len() - 1]
            <= p.crypto_recv.len() + pieces.last().len()
    }
}

/// CRYPTO data that comes in order is taken in full, however it is split and whatever is
/// consumed in between: what is consumed and what is held are together all the bytes that
/// came.
pub proof fn lemma_crypto_in_order(s: SpaceView, pieces: Seq<Seq<u8>>, reads: Seq<int>)
    requires
        s.wf(),
        s.crypto_end() + pieces.flatten().len() <= u64::MAX,
        reads_fit(s, pieces, reads),
    ensures
        fed(s, pieces, reads) is Ok,
        fed(s, pieces, reads)->Ok_0.crypto_end() == s.crypto_end() + pieces.flatten().len(),
        s.crypto_consumed <= fed(s, pieces, reads)->Ok_0.crypto_consumed,
        fed(s, pieces, reads)->Ok_0.crypto_recv == (s.crypto_recv + pieces.flatten()).skip(
            fed(s, pieces, reads)->Ok_0.crypto_consumed - s.crypto_consumed,
        ),
    decreases pieces.len(),
{
    if pieces.len() == 0 {
        assert(pieces.flatten() =~= Seq::empty());
        assert(s.crypto_recv =~= (s.crypto_recv + pieces.flatten()).skip(0));
    } else {
        let front = pieces.drop_last();
        let last = pieces.last();
        assert(pieces =~= front + seq![last]);
        front.lemma_flatten_push(last);
        assert(front.push(last) =~= pieces);
        assert(pieces.flatten() =~= front.flatten() + last);
        lemma_crypto_in_order(s, front, reads);
        let p = fed(s, front, reads)->Ok_0;
        let q = p.with_crypto(p.crypto_end() as u64, last)->Ok_0;
        assert(q.crypto_recv =~= p.crypto_recv + last);
        let all = s.crypto_recv + pieces.flatten();
        assert(q.crypto_recv =~= all.skip(p.crypto_consumed - s.crypto_consumed));
        let n = reads[pieces.len() - 1];
        assert(q.crypto_recv.skip(n) =~= all.skip(p.crypto_consumed + n - s.crypto_consumed));
    }
}

/// CRYPTO data that was consumed before changes nothing.
pub proof fn lemma_crypto_again(s: SpaceView, offset: u64, data: Seq<u8>)
    requires
        offset + data.len() <= s.crypto_consumed,
    ensures
        s.with_crypto(offset, data) == Ok::<SpaceView, QuicFault>(s),
{
}

/// An acknowledged CRYPTO frame takes exactly its bytes out of those that are outstanding,
/// and every byte that stays outstanding is kept as it was written.
pub proof fn lemma_crypto_acked_outstanding(s: SpaceView, offset: u64, len: nat, at: int)
    requires
        s.wf(),
    ensures
        s.crypto_acknowledged(offset, len).wf(),
        s.crypto_acknowledged(offset, len).crypto_outstanding(at) == (s.crypto_outstanding(at) && !(
        offset <= at < offset + len)),
        s.crypto_acknowledged(offset, len).crypto_outstanding(at) ==> s.crypto_acknowledged(
            offset,
            len,
        ).crypto_byte(at) == s.crypto_byte(at),
{
    lemma_acknowledged(
        s.crypto_acked,
        s.crypto_acked_ahead,
        s.crypto_written,
        offset,
        len,
        at,
    );
}

/// Whether a CRYPTO frame carries a byte at an offset.
pub open spec fn crypto_carries(f: Option<OutgoingView>, at: int, byte: u8) -> bool {
    f matches Some(OutgoingView::Crypto { offset, data }) && offset <= at < offset + data.len()
        && data[at - offset] == byte
}

impl SpaceView {
    /// The CRYPTO frame that reaches an offset, among the next ones with at most `limit`
    /// bytes each.
    pub open spec fn crypto_reaching(self, limit: nat, at: int) -> Option<OutgoingView>
        decreases self.crypto_written - self.crypto_sent,
    {
        let f = self.next_crypto(limit);
        if self.crypto_sent >= self.crypto_written || limit == 0 {
            None
        } else {
            let n = min_int(limit as int, self.crypto_written - self.crypto_sent);
            if at < self.crypto_sent + n {
                f
            } else {
                (SpaceView { crypto_sent: (self.crypto_sent + n) as u64, ..self }).crypto_reaching(
                    limit,
                    at,
                )
            }
        }
    }
}

proof fn lemma_crypto_reaching(s: SpaceView, limit: nat, at: int)
    requires
        s.wf(),
        s.crypto_sent <= at < s.crypto_written,
        limit > 0,
    ensures
        crypto_carries(s.crypto_reaching(limit, at), at, s.crypto_byte(at)),
    decreases s.crypto_written - s.crypto_sent,
{
    let n = min_int(limit as int, s.crypto_written - s.crypto_sent);
    if at >= s.crypto_sent + n {
        lemma_crypto_reaching(
            SpaceView { crypto_sent: (s.crypto_sent + n) as u64, ..s },
            limit,
            at,
        );
    }
}

/// A lost CRYPTO byte is sent again: where a frame is lost, every byte of it that is still
/// outstanding waits to be sent, whatever else was acknowledged, and the next frames reach
/// it and carry what was written.
pub proof fn lemma_lost_crypto_is_sent_again(s: SpaceView, offset: u64, len: nat, at: int)
    requires
        s.wf(),
        s.crypto_outstanding(at),
        offset <= at < offset + len,
    ensures
        ({
            let w = s.crypto_lost(offset);
            &&& w.wf()
            &&& w.crypto_sent <= at < w.crypto_written
            &&& w.crypto_outstanding(at)
            &&& forall|limit: nat|
                limit > 0 ==> crypto_carries(
                    #[trigger] w.crypto_reaching(limit, at),
                    at,
                    s.crypto_byte(at),
                )
        }),
{
    let w = s.crypto_lost(offset);
    assert forall|limit: nat| limit > 0 implies crypto_carries(
        #[trigger] w.crypto_reaching(limit, at),
        at,
        s.crypto_byte(at),
    ) by {
        lemma_crypto_reaching(w, limit, at);
    }
}

} // verus!
