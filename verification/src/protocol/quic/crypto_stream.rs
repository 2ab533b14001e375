//! How the CRYPTO stream of a connection is read: the same whatever frames carry it.

use super::error::QuicFault;
use super::space::{PnSpace, SpaceView};
use super::tls13::{
    lemma_consumed_split, lemma_consumed_within, lemma_keys_chosen, lemma_quiet_until_finished,
    HandshakeView,
};
use super::transport::{raised_limits, ConnView, Limits, Outcome};
use vstd::prelude::*;

verus! {

/// A connection that has read `n` bytes of the CRYPTO buffer of a space, the handshake
/// behind them.
#[verifier::opaque]
spec fn settled(c: ConnView, i: int, sp: SpaceView, tls: HandshakeView, n: int) -> ConnView {
    let read = c.with_space(i, sp.crypto_read(n));
    let queued = read.with_space(1, read.spaces[1].queued(tls.pending));
    let keyed = (ConnView {
        tls: HandshakeView { pending: Seq::empty(), ..tls },
        ..queued
    }).with_keys().with_peer_limits();
    ConnView { handshake_complete: c.handshake_complete || tls.complete(), ..keyed }
}

/// The Handshake space with the keys of a handshake that is not confirmed.
spec fn with_traffic(h: SpaceView, tls: HandshakeView, confirmed: bool) -> SpaceView {
    SpaceView {
        write_key: if h.write_key is None && !confirmed {
            tls.hs_write
        } else {
            h.write_key
        },
        key: if h.key is None && !confirmed {
            tls.hs_read
        } else {
            h.key
        },
        ..h
    }
}

proof fn lemma_queued_nothing(sp: SpaceView)
    ensures
        sp.queued(Seq::empty()) == sp,
{
    assert(sp.crypto_send + Seq::<u8>::empty().take(0) =~= sp.crypto_send);
    assert(sp.queued(Seq::empty()) =~= sp);
}

/// The application space with the keys of a handshake that is over.
spec fn with_application(a: SpaceView, tls: HandshakeView) -> SpaceView {
    SpaceView {
        write_key: if tls.complete() && tls.app_write is Some {
            tls.app_write
        } else {
            a.write_key
        },
        key: if tls.complete() && tls.app_read is Some {
            tls.app_read
        } else {
            a.key
        },
        ..a
    }
}

/// Limits once a handshake is over.
spec fn with_limits(l: Limits, tls: HandshakeView) -> Limits {
    match tls.peer_tp {
        Some(tp) if tls.complete() => raised_limits(l, tp),
        _ => l,
    }
}

proof fn lemma_settled(c: ConnView, i: int, sp: SpaceView, tls: HandshakeView, n: int)
    requires
        c.spaces.len() == 3,
        0 <= i < 3,
    ensures
        ({
            let read = c.spaces.update(i, sp.crypto_read(n));
            settled(c, i, sp, tls, n) == (ConnView {
                tls: HandshakeView { pending: Seq::empty(), ..tls },
                spaces: seq![
                    read[0],
                    with_traffic(read[1].queued(tls.pending), tls, c.handshake_confirmed),
                    with_application(read[2], tls),
                ],
                limits: with_limits(c.limits, tls),
                handshake_complete: c.handshake_complete || tls.complete(),
                ..c
            })
        }),
{
    reveal(settled);
    let read = c.spaces.update(i, sp.crypto_read(n));
    let r = settled(c, i, sp, tls, n);
    let e = seq![
        read[0],
        with_traffic(read[1].queued(tls.pending), tls, c.handshake_confirmed),
        with_application(read[2], tls),
    ];
    assert(r.spaces[2] =~= e[2]);
    assert(r.spaces =~= e);
}

/// CRYPTO data right behind what has come is put behind it.
proof fn lemma_behind_end(s: SpaceView, data: Seq<u8>)
    requires
        s.crypto_end() + data.len() <= u64::MAX,
    ensures
        s.with_crypto(s.crypto_end() as u64, data) == Ok::<SpaceView, QuicFault>(
            SpaceView { crypto_recv: s.crypto_recv + data, ..s },
        ),
{
    let r = s.with_crypto(s.crypto_end() as u64, data)->Ok_0;
    assert(r =~= (SpaceView { crypto_recv: s.crypto_recv + data, ..s }));
}

/// What reading handshake messages comes to.
#[verifier::opaque]
spec fn messages(h: HandshakeView, buf: Seq<u8>) -> (
    HandshakeView,
    core::result::Result<int, QuicFault>,
) {
    h.consumed(buf, 0)
}

proof fn lemma_messages(h: HandshakeView, a: Seq<u8>, b: Seq<u8>)
    requires
        h.suite is None ==> h.hs_write is None && h.hs_read is None,
        h.pending.len() == 0,
        messages(h, a).1 is Ok,
        !messages(h, a).0.server_finished,
    ensures
        ({
            let (t, r) = messages(h, a);
            let n = r->Ok_0;
            let (u, q) = messages(t, (a + b).skip(n));
            &&& 0 <= n <= a.len()
            &&& t.pending == Seq::<u8>::empty()
            &&& t.hs_write is Some ==> u.hs_write == t.hs_write
            &&& t.hs_read is Some ==> u.hs_read == t.hs_read
            &&& messages(h, a + b).0 == u
            &&& match q {
                Ok(m) => messages(h, a + b).1 == Ok::<int, QuicFault>(n + m) && 0 <= m <= (a
                    + b).len() - n,
                Err(f) => messages(h, a + b).1 == Err::<int, QuicFault>(f),
            }
        }),
{
    reveal(messages);
    let (t, r) = h.consumed(a, 0);
    lemma_consumed_split(h, a, b);
    lemma_keys_chosen(h, a, 0);
    lemma_quiet_until_finished(h, a, 0);
    lemma_quiet_until_finished(t, (a + b).skip(r->Ok_0), 0);
    lemma_consumed_within(t, (a + b).skip(r->Ok_0), 0);
    assert(t.pending =~= Seq::empty());
}

/// A connection behind CRYPTO data that comes right behind what came before.
#[verifier::opaque]
spec fn taken(c: ConnView, space: PnSpace, data: Seq<u8>) -> (ConnView, Outcome) {
    c.on_crypto(space, c.spaces[space.place()].crypto_end() as u64, data)
}

/// A space with CRYPTO data behind what has come.
spec fn with_data(s: SpaceView, data: Seq<u8>) -> SpaceView {
    SpaceView { crypto_recv: s.crypto_recv + data, ..s }
}

proof fn lemma_taken(c: ConnView, space: PnSpace, data: Seq<u8>)
    requires
        c.spaces[space.place()].crypto_end() + data.len() <= u64::MAX,
    ensures
        ({
            let i = space.place();
            let s = c.spaces[i];
            let r = taken(c, space, data);
            let (tls, q) = messages(c.tls, s.crypto_recv + data);
            match q {
                Ok(n) => r.0 == settled(c, i, with_data(s, data), tls, n) && r.1 == Ok::<
                    (),
                    QuicFault,
                >(()),
                Err(f) => r.0.tls == tls && r.1 == Err::<(), QuicFault>(f),
            }
        }),
{
    reveal(settled);
    reveal(messages);
    reveal(taken);
    lemma_behind_end(c.spaces[space.place()], data);
}

/// Reading behind a step that gave no more than keys gives what reading without it gives.
proof fn lemma_settled_twice(
    c: ConnView,
    i: int,
    sp: SpaceView,
    t: HandshakeView,
    n: int,
    next: SpaceView,
    whole: SpaceView,
    u: HandshakeView,
    m: int,
)
    requires
        c.spaces.len() == 3,
        0 <= i < 3,
        t.pending == Seq::<u8>::empty(),
        !t.complete(),
        t.hs_write is Some ==> u.hs_write == t.hs_write,
        t.hs_read is Some ==> u.hs_read == t.hs_read,
        whole.key == sp.key && whole.write_key == sp.write_key,
        next.key == settled(c, i, sp, t, n).spaces[i].key,
        next.write_key == settled(c, i, sp, t, n).spaces[i].write_key,
        whole.crypto_read(n + m) == (SpaceView {
            key: whole.key,
            write_key: whole.write_key,
            ..next
        }).crypto_read(m),
    ensures
        settled(settled(c, i, sp, t, n), i, next, u, m) == settled(c, i, whole, u, n + m),
{
    let first = settled(c, i, sp, t, n);
    lemma_settled(c, i, sp, t, n);
    lemma_settled(first, i, next, u, m);
    lemma_settled(c, i, whole, u, n + m);
    let before = c.spaces.update(i, sp.crypto_read(n));
    lemma_queued_nothing(before[1]);
    let a = settled(first, i, next, u, m);
    let b = settled(c, i, whole, u, n + m);
    let x = first.spaces.update(i, next.crypto_read(m));
    let y = c.spaces.update(i, whole.crypto_read(n + m));
    assert(a.spaces[0] == b.spaces[0]);
    assert(a.spaces[1] =~= b.spaces[1]) by {
        assert(x[1].queued(u.pending).write_key == x[1].write_key);
        assert(y[1].queued(u.pending).write_key == y[1].write_key);
    }
    assert(a.spaces[2] =~= b.spaces[2]);
    assert(a.spaces =~= b.spaces);
}

/// What a first piece leaves behind, where it does not end the handshake.
proof fn lemma_first_piece(c: ConnView, space: PnSpace, a: Seq<u8>)
    requires
        c.spaces.len() == 3,
        c.tls.wf(),
        c.tls.pending.len() == 0,
        c.spaces[space.place()].crypto_end() + a.len() <= u64::MAX,
        taken(c, space, a).1 is Ok,
        !taken(c, space, a).0.tls.server_finished,
    ensures
        ({
            let i = space.place();
            let s = c.spaces[i];
            let held = s.crypto_recv + a;
            let (t, r) = messages(c.tls, held);
            let n = r->Ok_0;
            let first = taken(c, space, a).0;
            &&& r is Ok
            &&& 0 <= n <= held.len()
            &&& t.pending == Seq::<u8>::empty()
            &&& !t.server_finished
            &&& first == settled(c, i, with_data(s, a), t, n)
            &&& first.tls == t
            &&& first.spaces.len() == 3
            &&& first.spaces[i].crypto_recv == held.skip(n)
            &&& first.spaces[i].crypto_consumed == s.crypto_consumed + n
            &&& first.spaces[i] == (SpaceView {
                key: first.spaces[i].key,
                write_key: first.spaces[i].write_key,
                ..with_data(s, a).crypto_read(n)
            })
        }),
{
    let i = space.place();
    let s = c.spaces[i];
    let held = s.crypto_recv + a;
    let (t, r) = messages(c.tls, held);
    let n = r->Ok_0;
    lemma_taken(c, space, a);
    lemma_settled(c, i, with_data(s, a), t, n);
    lemma_messages(c.tls, held, Seq::empty());
    lemma_queued_nothing(c.spaces.update(i, with_data(s, a).crypto_read(n))[1]);
}

proof fn lemma_pieces(c: ConnView, space: PnSpace, a: Seq<u8>, b: Seq<u8>)
    requires
        c.spaces.len() == 3,
        c.tls.wf(),
        c.tls.pending.len() == 0,
        c.spaces[space.place()].crypto_end() + a.len() + b.len() <= u64::MAX,
        taken(c, space, a).1 is Ok,
        !taken(c, space, a).0.tls.server_finished,
    ensures
        ({
            let split = taken(taken(c, space, a).0, space, b);
            let whole = taken(c, space, a + b);
            &&& taken(c, space, a).0.spaces[space.place()].crypto_end()
                == c.spaces[space.place()].crypto_end() + a.len()
            &&& whole.1 == split.1
            &&& whole.1 is Ok ==> whole.0 == split.0
        }),
{
    let i = space.place();
    let s = c.spaces[i];
    let held = s.crypto_recv + a;
    let (t, r) = messages(c.tls, held);
    let n = r->Ok_0;
    lemma_first_piece(c, space, a);
    let first = taken(c, space, a).0;
    let mid = first.spaces[i];
    assert(s.crypto_recv + (a + b) =~= held + b);
    lemma_taken(c, space, a + b);
    lemma_taken(first, space, b);
    lemma_messages(c.tls, held, b);
    let left = (held + b).skip(n);
    assert(held.skip(n) + b =~= left);
    let (u, q) = messages(t, left);
    if let Ok(m) = q {
        let next = with_data(mid, b);
        let whole = with_data(s, a + b);
        assert((held + b).skip(n + m) =~= left.skip(m));
        assert(whole.crypto_read(n + m) =~= (SpaceView {
            key: whole.key,
            write_key: whole.write_key,
            ..next
        }).crypto_read(m));
        lemma_settled_twice(c, i, with_data(s, a), t, n, next, whole, u, m);
    }
}

/// CRYPTO data is taken alike however it is split, up to the server's Finished: two pieces
/// in order give the connection and the outcome that both in one frame give.
pub proof fn lemma_crypto_split(c: ConnView, space: PnSpace, a: Seq<u8>, b: Seq<u8>)
    requires
        c.wf(),
        c.tls.pending.len() == 0,
        c.spaces[space.place()].crypto_end() + a.len() + b.len() <= u64::MAX,
        c.on_crypto(space, c.spaces[space.place()].crypto_end() as u64, a).1 is Ok,
        !c.on_crypto(
            space,
            c.spaces[space.place()].crypto_end() as u64,
            a,
        ).0.tls.server_finished,
    ensures
        ({
            let at = c.spaces[space.place()].crypto_end();
            let first = c.on_crypto(space, at as u64, a).0;
            let split = first.on_crypto(space, (at + a.len()) as u64, b);
            let whole = c.on_crypto(space, at as u64, a + b);
            &&& whole.1 == split.1
            &&& whole.1 is Ok ==> whole.0 == split.0
        }),
{
    assert(c.spaces.len() == 3 && c.tls.wf());
    assert(taken(c, space, a) == c.on_crypto(
        space,
        c.spaces[space.place()].crypto_end() as u64,
        a,
    )) by {
        reveal(taken);
    }
    lemma_pieces(c, space, a, b);
    reveal(taken);
}

/// A connection that CRYPTO data came to piece by piece, each right behind the one before.
pub open spec fn fed(c: ConnView, space: PnSpace, pieces: Seq<Seq<u8>>) -> (ConnView, Outcome)
    decreases pieces.len(),
{
    if pieces.len() == 0 {
        (c, Ok(()))
    } else {
        match fed(c, space, pieces.drop_last()) {
            (d, Err(f)) => (d, Err(f)),
            (d, Ok(_)) => d.on_crypto(
                space,
                d.spaces[space.place()].crypto_end() as u64,
                pieces.last(),
            ),
        }
    }
}

proof fn lemma_fed(c: ConnView, space: PnSpace, pieces: Seq<Seq<u8>>)
    requires
        c.spaces.len() == 3,
        c.tls.wf(),
        c.tls.pending.len() == 0,
        c.spaces[space.place()].crypto_end() + pieces.flatten().len() <= u64::MAX,
        pieces.len() > 0,
        fed(c, space, pieces.drop_last()).1 is Ok,
        !fed(c, space, pieces.drop_last()).0.tls.server_finished,
    ensures
        fed(c, space, pieces).1 == taken(c, space, pieces.flatten()).1,
        fed(c, space, pieces).1 is Ok ==> fed(c, space, pieces).0 == taken(
            c,
            space,
            pieces.flatten(),
        ).0,
    decreases pieces.len(),
{
    let front = pieces.drop_last();
    let last = pieces.last();
    let d = fed(c, space, front).0;
    assert(fed(c, space, pieces) == taken(d, space, last)) by {
        reveal(taken);
    }
    assert(front.push(last) =~= pieces);
    front.lemma_flatten_push(last);
    assert(pieces.flatten() =~= front.flatten() + last);
    if front.len() == 0 {
        assert(front.flatten() =~= Seq::empty());
        assert(pieces.flatten() =~= last);
    } else {
        let e = fed(c, space, front.drop_last()).0;
        if e.tls.server_finished {
            lemma_stays_finished(c, space, front);
        }
        lemma_fed(c, space, front);
        lemma_pieces(c, space, front.flatten(), last);
    }
}

proof fn lemma_stays_finished(c: ConnView, space: PnSpace, pieces: Seq<Seq<u8>>)
    requires
        pieces.len() > 0,
        fed(c, space, pieces.drop_last()).1 is Ok,
        fed(c, space, pieces.drop_last()).0.tls.server_finished,
    ensures
        fed(c, space, pieces).0.tls.server_finished,
{
    let d = fed(c, space, pieces.drop_last()).0;
    let i = space.place();
    let at = d.spaces[i].crypto_end() as u64;
    if let Ok(sp) = d.spaces[i].with_crypto(at, pieces.last()) {
        lemma_quiet_until_finished(d.tls, sp.crypto_recv, 0);
    }
}

/// CRYPTO data is taken alike however many frames carry it, up to the server's Finished:
/// where the last piece is the first that may end the handshake, the pieces in order give
/// the connection and the outcome that all of them in one frame give.
pub proof fn lemma_crypto_however_split(c: ConnView, space: PnSpace, pieces: Seq<Seq<u8>>)
    requires
        c.wf(),
        c.tls.pending.len() == 0,
        c.spaces[space.place()].crypto_end() + pieces.flatten().len() <= u64::MAX,
        pieces.len() > 0,
        fed(c, space, pieces.drop_last()).1 is Ok,
        !fed(c, space, pieces.drop_last()).0.tls.server_finished,
    ensures
        ({
            let whole = c.on_crypto(
                space,
                c.spaces[space.place()].crypto_end() as u64,
                pieces.flatten(),
            );
            &&& fed(c, space, pieces).1 == whole.1
            &&& whole.1 is Ok ==> fed(c, space, pieces).0 == whole.0
        }),
{
    assert(c.spaces.len() == 3 && c.tls.wf());
    lemma_fed(c, space, pieces);
    reveal(taken);
}

} // verus!
