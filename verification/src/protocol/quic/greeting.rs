//! The messages of the handshake over QUIC as they are read: what the hello offers, what the
//! server's answers are taken for, and which certificate is good enough.

use super::error::QuicFault;
use super::params::{
    lemma_varint_round_trip, no_params, param_bytes, params_of, varint_at, varint_bytes, ParamsView,
};
use super::tls13::{
    alpn_of, certs_behind, certs_of, exts_at, exts_behind, hello_exts, hello_message, hello_of,
    last_name, name_list, HandshakeView,
};
use crate::protocol::tls13::codec::{
    exts_bytes, exts_fit, first_ext, hs_bytes, u16_at, DOWNGRADE_TLS12, HRR_RANDOM,
};
use crate::protocol::tls13::fingerprint::sni_body;
use crate::protocol::tls13::schemes::{lemma_first_ext, server_hello_bytes, share_bytes};
use crate::wire::{be_bytes, lemma_be_bytes_len, lemma_be_round_trip, lemma_pow256};
use crate::x509::{chain_verdict, hostname_ok, leaf_read};
use vstd::prelude::*;
use vstd::string::*;

verus! {

// ---------------------------------------------------------------------------
// Transport parameters
// ---------------------------------------------------------------------------

/// Each number of a transport parameter stands for its own limit (RFC 9000 section 18.2),
/// and the others stay as they are without it.
pub proof fn lemma_parameter_numbers(v: u64)
    requires
        v < 0x4000_0000_0000_0000,
    ensures
        ({
            let n = varint_bytes(v);
            let none = no_params();
            &&& params_of(param_bytes(0x03, n)) == Ok::<ParamsView, QuicFault>(
                (ParamsView { max_udp_payload_size: v, ..none }),
            )
            &&& params_of(param_bytes(0x04, n)) == Ok::<ParamsView, QuicFault>(
                (ParamsView { initial_max_data: v, ..none }),
            )
            &&& params_of(param_bytes(0x05, n)) == Ok::<ParamsView, QuicFault>(
                (ParamsView { initial_max_stream_data_bidi_local: v, ..none }),
            )
            &&& params_of(param_bytes(0x06, n)) == Ok::<ParamsView, QuicFault>(
                (ParamsView { initial_max_stream_data_bidi_remote: v, ..none }),
            )
            &&& params_of(param_bytes(0x07, n)) == Ok::<ParamsView, QuicFault>(
                (ParamsView { initial_max_stream_data_uni: v, ..none }),
            )
            &&& params_of(param_bytes(0x08, n)) == Ok::<ParamsView, QuicFault>(
                (ParamsView { initial_max_streams_bidi: v, ..none }),
            )
            &&& params_of(param_bytes(0x09, n)) == Ok::<ParamsView, QuicFault>(
                (ParamsView { initial_max_streams_uni: v, ..none }),
            )
            &&& params_of(param_bytes(0x0a, n)) == Ok::<ParamsView, QuicFault>(
                (ParamsView { ack_delay_exponent: v, ..none }),
            )
            &&& params_of(param_bytes(0x0b, n)) == Ok::<ParamsView, QuicFault>(
                (ParamsView { max_ack_delay: v, ..none }),
            )
            &&& params_of(param_bytes(0x0c, Seq::empty())) == Ok::<ParamsView, QuicFault>(
                (ParamsView { disable_active_migration: true, ..none }),
            )
            &&& params_of(param_bytes(0x0f, n)) == Ok::<ParamsView, QuicFault>(
                (ParamsView { initial_source_connection_id: n, ..none }),
            )
            &&& params_of(param_bytes(0x01, n)) == Ok::<ParamsView, QuicFault>(none)
            &&& none.initial_max_data == 0 && none.initial_max_streams_bidi == 0
            &&& none.initial_max_streams_uni == 0
        }),
{
    let n = varint_bytes(v);
    lemma_varint_round_trip(v, Seq::empty());
    assert(n + Seq::<u8>::empty() =~= n);
    lemma_parameter_read(0x01, n);
    lemma_parameter_read(0x03, n);
    lemma_parameter_read(0x04, n);
    lemma_parameter_read(0x05, n);
    lemma_parameter_read(0x06, n);
    lemma_parameter_read(0x07, n);
    lemma_parameter_read(0x08, n);
    lemma_parameter_read(0x09, n);
    lemma_parameter_read(0x0a, n);
    lemma_parameter_read(0x0b, n);
    lemma_parameter_read(0x0c, Seq::empty());
    lemma_parameter_read(0x0f, n);
}

proof fn lemma_parameter_read(id: u64, value: Seq<u8>)
    requires
        id < 0x40,
        value.len() <= 8,
    ensures
        params_of(param_bytes(id, value)) == super::params::with_param(no_params(), id, value),
{
    let a = varint_bytes(id);
    let b = varint_bytes(value.len() as u64);
    let data = param_bytes(id, value);
    lemma_varint_round_trip(id, b + value);
    assert(data =~= a + (b + value));
    lemma_varint_round_trip(value.len() as u64, value);
    lemma_be_bytes_len(id as nat, 1);
    lemma_be_bytes_len(value.len(), 1);
    assert(a.len() == 1 && b.len() == 1);
    lemma_varint_skip(a, b + value);
    assert(data.subrange(2, 2 + value.len() as int) =~= value);
    assert(data.len() == 2 + value.len());
    if let Ok(tp) = super::params::with_param(no_params(), id, value) {
        assert(super::params::params_from(data, 2 + value.len() as int, tp) == Ok::<
            ParamsView,
            QuicFault,
        >(tp));
    }
}

proof fn lemma_varint_skip(head: Seq<u8>, rest: Seq<u8>)
    requires
        varint_at(rest, 0) is Some,
    ensures
        varint_at(rest, 0) matches Some((v, n)) ==> varint_at(head + rest, head.len() as int)
            == Some((v, head.len() + n)),
{
    if let Some((v, n)) = varint_at(rest, 0) {
        let all = head + rest;
        assert(all[head.len() as int] == rest[0]);
        assert(all.subrange(head.len() as int, head.len() + n) =~= rest.subrange(0, n));
    }
}

// ---------------------------------------------------------------------------
// Extensions
// ---------------------------------------------------------------------------

/// Whether no two extensions have one type.
pub open spec fn told_apart(exts: Seq<(u16, Seq<u8>)>) -> bool {
    forall|i: int, j: int|
        0 <= i < j < exts.len() ==> (#[trigger] exts[i]).0 != (#[trigger] exts[j]).0
}

proof fn lemma_absent(exts: Seq<(u16, Seq<u8>)>, t: u16)
    requires
        forall|i: int| 0 <= i < exts.len() ==> (#[trigger] exts[i]).0 != t,
    ensures
        first_ext(exts, t) is None,
    decreases exts.len(),
{
    if exts.len() > 0 {
        let rest = exts.skip(1);
        assert(exts[0].0 != t);
        assert forall|i: int| 0 <= i < rest.len() implies (#[trigger] rest[i]).0 != t by {
            assert(rest[i] == exts[i + 1]);
        }
        lemma_absent(rest, t);
    }
}

proof fn lemma_exts_read(
    head: Seq<u8>,
    before: Seq<(u16, Seq<u8>)>,
    exts: Seq<(u16, Seq<u8>)>,
    rest: Seq<u8>,
)
    requires
        exts_fit(exts),
        told_apart(before + exts),
    ensures
        exts_behind(
            head + exts_bytes(exts) + rest,
            head.len() as int,
            (head.len() + exts_bytes(exts).len()) as int,
            before,
        ) == Ok::<Seq<(u16, Seq<u8>)>, QuicFault>(before + exts),
    decreases exts.len(),
{
    let buf = head + exts_bytes(exts) + rest;
    if exts.len() > 0 {
        let (t, data) = exts[0];
        let first = crate::protocol::tls13::codec::ext_bytes(t, data);
        let tail = exts.skip(1);
        assert(exts[0].1.len() < 0x1_0000);
        lemma_pow256();
        lemma_be_round_trip(t as nat, 2);
        lemma_be_round_trip(data.len(), 2);
        let more = before.push((t, data));
        assert(more + tail =~= before + exts);
        assert forall|i: int| 0 <= i < tail.len() implies (#[trigger] tail[i]).1.len()
            < 0x1_0000 by {
            assert(tail[i] == exts[i + 1]);
        }
        lemma_exts_read(head + first, more, tail, rest);
        let p = head.len() as int;
        assert(buf =~= head + first + exts_bytes(tail) + rest);
        assert(buf.subrange(p, p + 2) =~= be_bytes(t as nat, 2));
        assert(buf.subrange(p + 2, p + 4) =~= be_bytes(data.len(), 2));
        assert(buf.subrange(p + 4, p + 4 + data.len()) =~= data);
        assert forall|i: int| 0 <= i < before.len() implies (#[trigger] before[i]).0 != t by {
            assert((before + exts)[i] == before[i]);
            assert((before + exts)[before.len() as int] == exts[0]);
        }
        lemma_absent(before, t);
    } else {
        assert(before + exts =~= before);
    }
}

/// A block of extensions of different types is read as what it was written from.
pub proof fn lemma_exts_round_trip(head: Seq<u8>, exts: Seq<(u16, Seq<u8>)>, rest: Seq<u8>)
    requires
        exts_fit(exts),
        told_apart(exts),
        exts_bytes(exts).len() < 0x1_0000,
    ensures
        exts_at(head + be_bytes(exts_bytes(exts).len(), 2) + exts_bytes(exts) + rest, head.len() as int)
            == Ok::<Seq<(u16, Seq<u8>)>, QuicFault>(exts),
{
    let n = exts_bytes(exts).len();
    lemma_pow256();
    lemma_be_round_trip(n, 2);
    let buf = head + be_bytes(n, 2) + exts_bytes(exts) + rest;
    let p = head.len() as int;
    assert(buf.subrange(p, p + 2) =~= be_bytes(n, 2));
    let none = Seq::<(u16, Seq<u8>)>::empty();
    assert(none + exts =~= exts);
    lemma_exts_read(head + be_bytes(n, 2), none, exts, rest);
}

// ---------------------------------------------------------------------------
// The ServerHello
// ---------------------------------------------------------------------------

/// A `ServerHello` is read as the suite that it selects and the share of X25519 that it
/// carries, whatever else it carries. Another suite, a compression method and another group
/// are refused.
pub proof fn lemma_server_hello_read(
    random: Seq<u8>,
    session: Seq<u8>,
    suite: u16,
    compression: u8,
    group: u16,
    key: Seq<u8>,
    before: Seq<(u16, Seq<u8>)>,
    behind: Seq<(u16, Seq<u8>)>,
)
    requires
        random.len() == 32,
        session.len() <= 32,
        key.len() == 32,
        exts_fit(before + seq![(0x33u16, share_bytes(group, key))] + behind),
        told_apart(before + seq![(0x33u16, share_bytes(group, key))] + behind),
        exts_bytes(before + seq![(0x33u16, share_bytes(group, key))] + behind).len() < 0x1_0000,
        random != HRR_RANDOM@,
        random.skip(24) != DOWNGRADE_TLS12@,
    ensures
        ({
            let exts = before + seq![(0x33u16, share_bytes(group, key))] + behind;
            let r = hello_of(server_hello_bytes(random, session, suite, compression, exts));
            let known = suite == 0x1301 || suite == 0x1302 || suite == 0x1303;
            &&& r is Ok <==> known && compression == 0 && group == 0x1d
            &&& r matches Ok((s, k)) ==> s == suite && k == key
        }),
{
    let share = share_bytes(group, key);
    let exts = before + seq![(0x33u16, share)] + behind;
    let n = exts_bytes(exts).len();
    let body = server_hello_bytes(random, session, suite, compression, exts);
    lemma_pow256();
    lemma_be_round_trip(0x0303, 2);
    lemma_be_round_trip(suite as nat, 2);
    lemma_be_round_trip(n, 2);
    assert(body.subrange(2, 34) =~= random);
    assert(body.subrange(26, 34) =~= random.skip(24));
    assert(body[34] == session.len());
    let at = 35 + session.len() as int;
    assert(body.subrange(at, at + 2) =~= be_bytes(suite as nat, 2));
    assert(u16_at(body, at) as u16 == suite);
    assert(body[at + 2] == compression);
    let head = be_bytes(0x0303, 2) + random + seq![session.len() as u8] + session + be_bytes(
        suite as nat,
        2,
    ) + seq![compression];
    let none = Seq::<u8>::empty();
    lemma_exts_round_trip(head, exts, none);
    assert(head + be_bytes(n, 2) + exts_bytes(exts) + none =~= body);
    assert forall|i: int| 0 <= i < before.len() implies (#[trigger] before[i]).0 != 0x33 by {
        assert(exts[i] == before[i]);
        assert(exts[before.len() as int].0 == 0x33);
    }
    lemma_first_ext(before, 0x33, share, behind);
    lemma_be_round_trip(group as nat, 2);
    lemma_be_round_trip(32, 2);
    assert(share.subrange(0, 2) =~= be_bytes(group as nat, 2));
    assert(share.subrange(2, 4) =~= be_bytes(32, 2));
    assert(share.subrange(4, 36) =~= key);
}

// ---------------------------------------------------------------------------
// EncryptedExtensions
// ---------------------------------------------------------------------------

/// The server's choice of a protocol is the name in its list, and its parameters are those
/// of its extension. Without parameters the handshake fails. No other message changes them.
pub proof fn lemma_server_extensions_read(
    h: HandshakeView,
    name: Seq<u8>,
    params: Seq<u8>,
)
    requires
        h.peer_tp is None,
        0 < name.len() < 256,
        params.len() < 0x1000,
    ensures
        ({
            let alpn = be_bytes(1 + name.len(), 2) + seq![name.len() as u8] + name;
            let both = seq![(0x10u16, alpn), (0x39u16, params)];
            let only = seq![(0x10u16, alpn)];
            let (d, r) = h.on_encrypted_extensions(
                be_bytes(exts_bytes(both).len(), 2) + exts_bytes(both),
            );
            &&& params_of(params) matches Ok(tp) ==> r is Ok && d == (HandshakeView {
                alpn: Some(name),
                peer_tp: Some(tp),
                ..h
            })
            &&& params_of(params) is Err ==> r is Err
            &&& h.on_encrypted_extensions(
                be_bytes(exts_bytes(only).len(), 2) + exts_bytes(only),
            ).1 is Err
        }),
{
    let n = name.len();
    let alpn = be_bytes(1 + n, 2) + seq![n as u8] + name;
    let both = seq![(0x10u16, alpn), (0x39u16, params)];
    let only = seq![(0x10u16, alpn)];
    let none = Seq::<u8>::empty();
    lemma_pow256();
    lemma_be_round_trip(1 + n, 2);
    lemma_be_bytes_len(alpn.len(), 2);
    lemma_be_bytes_len(params.len(), 2);
    lemma_be_bytes_len(0x10, 2);
    lemma_be_bytes_len(0x39, 2);
    reveal_with_fuel(exts_bytes, 3);
    assert(both.skip(1).len() == 1 && both.skip(1)[0] == both[1] && both.skip(1).skip(1).len() == 0);
    assert(only.skip(1).len() == 0);
    lemma_exts_round_trip(none, both, none);
    lemma_exts_round_trip(none, only, none);
    assert(none + be_bytes(exts_bytes(both).len(), 2) + exts_bytes(both) + none =~= be_bytes(
        exts_bytes(both).len(),
        2,
    ) + exts_bytes(both));
    assert(none + be_bytes(exts_bytes(only).len(), 2) + exts_bytes(only) + none =~= be_bytes(
        exts_bytes(only).len(),
        2,
    ) + exts_bytes(only));
    assert(alpn.subrange(0, 2) =~= be_bytes(1 + n, 2));
    assert(alpn[2] == n);
    assert(alpn.subrange(3, 3 + n as int) =~= name);
    reveal_with_fuel(last_name, 3);
    assert(alpn_of(alpn) == Ok::<Option<Seq<u8>>, QuicFault>(Some(name)));
    assert(both[0].0 == 0x10 && both[1].0 == 0x39);
    let named = HandshakeView { alpn: Some(name), ..h };
    assert(h.with_extensions(both, 0) == named.with_extensions(both, 1));
    assert(h.with_extensions(only, 0) == named.with_extensions(only, 1));
    if let Ok(tp) = params_of(params) {
        let told = HandshakeView { peer_tp: Some(tp), ..named };
        assert(named.with_extensions(both, 1) == told.with_extensions(both, 2));
    }
}

// ---------------------------------------------------------------------------
// Certificates
// ---------------------------------------------------------------------------

/// The entries of a `Certificate` message: each certificate behind its length, with
/// extensions behind it.
pub open spec fn entries_bytes(chain: Seq<Seq<u8>>) -> Seq<u8>
    decreases chain.len(),
{
    if chain.len() == 0 {
        Seq::empty()
    } else {
        be_bytes(chain[0].len(), 3) + chain[0] + be_bytes(0, 2) + entries_bytes(chain.skip(1))
    }
}

proof fn lemma_entries_read(head: Seq<u8>, before: Seq<Seq<u8>>, chain: Seq<Seq<u8>>)
    requires
        forall|i: int| 0 <= i < chain.len() ==> (#[trigger] chain[i]).len() < 0x100_0000,
    ensures
        certs_behind(
            head + entries_bytes(chain),
            head.len() as int,
            (head.len() + entries_bytes(chain).len()) as int,
            before,
        ) == Ok::<Seq<Seq<u8>>, QuicFault>(before + chain),
    decreases chain.len(),
{
    let buf = head + entries_bytes(chain);
    if chain.len() == 0 {
        assert(before + chain =~= before);
    } else {
        let c = chain[0];
        let rest = chain.skip(1);
        let first = be_bytes(c.len(), 3) + c + be_bytes(0, 2);
        lemma_pow256();
        lemma_be_round_trip(c.len(), 3);
        lemma_be_round_trip(0, 2);
        assert forall|i: int| 0 <= i < rest.len() implies (#[trigger] rest[i]).len()
            < 0x100_0000 by {
            assert(rest[i] == chain[i + 1]);
        }
        lemma_entries_read(head + first, before.push(c), rest);
        let p = head.len() as int;
        assert(buf =~= head + first + entries_bytes(rest));
        assert(buf.subrange(p, p + 3) =~= be_bytes(c.len(), 3));
        let behind = p + 3 + c.len();
        assert(buf.subrange(p + 3, behind) =~= c);
        assert(buf.subrange(behind, behind + 2) =~= be_bytes(0, 2));
        assert(before.push(c) + rest =~= before + chain);
    }
}

/// A `Certificate` message is read as the chain that it was written from, the server's own
/// certificate first.
pub proof fn lemma_chain_round_trip(chain: Seq<Seq<u8>>)
    requires
        chain.len() > 0,
        forall|i: int| 0 <= i < chain.len() ==> (#[trigger] chain[i]).len() < 0x100_0000,
        entries_bytes(chain).len() < 0x100_0000,
    ensures
        certs_of(seq![0u8] + be_bytes(entries_bytes(chain).len(), 3) + entries_bytes(chain)) == Ok::<
            Seq<Seq<u8>>,
            QuicFault,
        >(chain),
{
    let n = entries_bytes(chain).len();
    let head = seq![0u8] + be_bytes(n, 3);
    let body = head + entries_bytes(chain);
    lemma_pow256();
    lemma_be_round_trip(n, 3);
    assert(body[0] == 0);
    assert(body.subrange(1, 4) =~= be_bytes(n, 3));
    let none = Seq::<Seq<u8>>::empty();
    lemma_entries_read(head, none, chain);
    assert(none + chain =~= chain);
}

/// A server's certificate is taken only where its chain leads to a root and it names the
/// server, unless the checks are switched off; and where both hold it is.
pub proof fn lemma_certificate_checked(h: HandshakeView, chain: Seq<Seq<u8>>)
    requires
        h.leaf is None,
        chain.len() > 0,
        forall|i: int| 0 <= i < chain.len() ==> (#[trigger] chain[i]).len() < 0x100_0000,
        entries_bytes(chain).len() < 0x100_0000,
        leaf_read(chain[0]) is Ok,
    ensures
        ({
            let body = seq![0u8] + be_bytes(entries_bytes(chain).len(), 3) + entries_bytes(chain);
            let (d, r) = h.on_certificate(body);
            let leaf = leaf_read(chain[0])->Ok_0;
            let trusted = chain_verdict(h.roots, chain, h.now) is None;
            let named = hostname_ok(h.server_name, leaf.dns_names, leaf.ip_names);
            &&& r is Ok <==> h.skip_cert_verify || trusted && named
            &&& r is Ok ==> d == (HandshakeView { leaf: Some(leaf), ..h })
            &&& r is Err ==> d == h
        }),
{
    lemma_chain_round_trip(chain);
}

/// Messages come in their order and once: a second hello, a second certificate and a second
/// end are refused, and so is a proof before the certificate and an end before the proof.
pub proof fn lemma_messages_in_order(h: HandshakeView, body: Seq<u8>, before: Seq<u8>)
    ensures
        h.suite is Some ==> h.on_server_hello(body).1 is Err,
        h.peer_tp is Some ==> h.on_encrypted_extensions(body).1 is Err,
        h.leaf is Some ==> h.on_certificate(body).1 is Err,
        h.leaf is None ==> h.on_certificate_verify(body, before).1 is Err,
        h.server_finished ==> h.on_server_finished(body, before).1 is Err,
        h.leaf is None || !h.verified ==> h.on_server_finished(body, before).1 is Err,
        h.verify_data(h.server_hs_secret, before) != body ==> h.on_server_finished(body, before).1
            is Err,
{
}

/// What a server sends is taken by the number of its message (RFC 8446 section 4), and every
/// message but a ticket behind the handshake goes into the transcript.
pub proof fn lemma_message_numbers(h: HandshakeView, body: Seq<u8>)
    ensures
        ({
            let before = h.transcript_hash();
            let with = |t: u8| HandshakeView { transcript: h.transcript + hs_bytes(t, body), ..h };
            &&& h.on_message(2, body) == with(2).on_server_hello(body)
            &&& h.on_message(8, body) == with(8).on_encrypted_extensions(body)
            &&& h.on_message(11, body) == with(11).on_certificate(body)
            &&& h.on_message(15, body) == with(15).on_certificate_verify(body, before)
            &&& h.on_message(20, body) == with(20).on_server_finished(body, before)
            &&& h.on_message(1, body).1 is Err
            &&& h.on_message(24, body).1 is Err
            &&& h.on_message(13, body).1 is Err
            &&& h.server_finished ==> h.on_message(4, body) == (h, Ok::<(), QuicFault>(()))
            &&& !h.server_finished ==> h.on_message(4, body).1 is Err
        }),
{
}

// ---------------------------------------------------------------------------
// The ClientHello
// ---------------------------------------------------------------------------

/// What the client offers, read from its hello: TLS 1.3 and nothing older, X25519 and its
/// share of it, the suites that it has keys for, the server's name, the protocols that were
/// asked for, and its transport parameters.
pub proof fn lemma_hello_offers(
    server_name: Seq<char>,
    alpn: Seq<Seq<char>>,
    params: Seq<u8>,
    random: Seq<u8>,
    share: Seq<u8>,
)
    requires
        random.len() == 32,
        share.len() == 32,
        alpn.len() > 0,
        exts_fit(hello_exts(server_name, alpn, params, share)),
        exts_bytes(hello_exts(server_name, alpn, params, share)).len() < 0x1_0000,
    ensures
        ({
            let hello = hello_message(server_name, alpn, params, random, share);
            let body = hello.skip(4);
            let names = name_list(alpn);
            &&& hello[0] == 1
            &&& body[0] == 3 && body[1] == 3
            &&& body.subrange(2, 34) == random
            &&& body.subrange(34, 45) == seq![0u8, 0, 6, 0x13, 1, 0x13, 2, 0x13, 3, 1, 0]
            &&& exts_at(body, 45) matches Ok(exts) && {
                &&& first_ext(exts, 0x00) == Some(sni_body(server_name))
                &&& first_ext(exts, 0x0a) == Some(seq![0u8, 2, 0, 0x1d])
                &&& first_ext(exts, 0x2b) == Some(seq![2u8, 3, 4])
                &&& first_ext(exts, 0x10) == Some(be_bytes(names.len(), 2) + names)
                &&& first_ext(exts, 0x39) == Some(params)
                &&& first_ext(exts, 0x33) == Some(be_bytes(36, 2) + share_bytes(0x1d, share))
            }
        }),
{
    let exts = hello_exts(server_name, alpn, params, share);
    let n = exts_bytes(exts).len();
    let head = seq![3u8, 3] + random + seq![0u8] + seq![0u8, 6, 0x13, 1, 0x13, 2, 0x13, 3] + seq![
        1u8,
        0,
    ];
    let none = Seq::<u8>::empty();
    let hello = hello_message(server_name, alpn, params, random, share);
    let body = head + be_bytes(n, 2) + exts_bytes(exts);
    lemma_be_bytes_len(body.len(), 3);
    assert(hello.skip(4) =~= body);
    assert(body.subrange(2, 34) =~= random);
    assert(body.subrange(34, 45) =~= seq![0u8, 0, 6, 0x13, 1, 0x13, 2, 0x13, 3, 1, 0]);
    assert(exts.len() == 7);
    assert(told_apart(exts));
    lemma_exts_round_trip(head, exts, none);
    assert(head + be_bytes(n, 2) + exts_bytes(exts) + none =~= body);
    reveal_with_fuel(first_ext, 8);
    assert(exts.skip(1)[0] == exts[1]);
    assert(exts.skip(1).skip(1) =~= exts.skip(2));
    assert(exts.skip(2).skip(1) =~= exts.skip(3));
    assert(exts.skip(3).skip(1) =~= exts.skip(4));
    assert(exts.skip(4).skip(1) =~= exts.skip(5));
    assert(exts.skip(5).skip(1) =~= exts.skip(6));
    lemma_x25519_share(share);
}

proof fn lemma_x25519_share(share: Seq<u8>)
    requires
        share.len() == 32,
    ensures
        be_bytes(36, 2) + seq![0u8, 0x1d] + be_bytes(32, 2) + share == be_bytes(36, 2)
            + share_bytes(0x1d, share),
{
    reveal_with_fuel(be_bytes, 3);
    assert(be_bytes(0x1d, 2) =~= seq![0u8, 0x1d]);
    assert(be_bytes(36, 2) + seq![0u8, 0x1d] + be_bytes(32, 2) + share =~= be_bytes(36, 2)
        + share_bytes(0x1d, share));
}

} // verus!
