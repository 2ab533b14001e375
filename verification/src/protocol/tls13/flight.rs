//! What the client makes of the server's flight and of what follows it: what is negotiated,
//! which certificate is good enough, and what ends the connection.

use super::client::{
    after_post, alert_of, alert_outcome, chain_of, first_flight, hello_in_record, on_cert, on_ee,
    on_finished, on_hs_message, on_verify, selected_protocol, take_record, x509_verdict,
    FillOutcome, FlightView, MessageOutcome, StreamView, Tls13ClientConfig,
};
use super::codec::{exts_bytes, exts_fit, hs_at, hs_bytes, lemma_ext_block_round_trip, u16_at};
use super::record::{header_at, header_bytes, inner_content, unpadded_len};
use super::schemes::lemma_first_ext;
use super::TlsFault;
use crate::protocol::quic::greeting::entries_bytes;
use crate::wire::{be_bytes, be_value, lemma_be_bytes_len, lemma_be_round_trip, lemma_pow256};
use crate::x509::{chain_verdict, hostname_ok, leaf_read, LeafView};
use vstd::prelude::*;
use vstd::string::*;

verus! {

// ---------------------------------------------------------------------------
// Certificates
// ---------------------------------------------------------------------------

/// A server is believed where its chain leads to a root and its certificate names it, and
/// where the checks are switched off; otherwise it is not.
pub proof fn lemma_server_believed(
    roots: Seq<Seq<u8>>,
    name: Seq<char>,
    now: i64,
    leaf: LeafView,
    chain: Seq<Seq<u8>>,
)
    ensures
        x509_verdict(roots, name, now, false, leaf, chain) is None,
        x509_verdict(roots, name, now, true, leaf, chain) is None <==> chain_verdict(
            roots,
            chain,
            now,
        ) is None && hostname_ok(name, leaf.dns_names, leaf.ip_names),
        x509_verdict(roots, name, now, true, leaf, chain) matches Some(f) ==> f is Certificate,
{
}

proof fn lemma_entry_read(buf: Seq<u8>, p: int, end: int, c: Seq<u8>)
    requires
        0 <= p,
        c.len() < 0x100_0000,
        p + 5 + c.len() <= end <= buf.len(),
        buf.subrange(p, p + 3) == be_bytes(c.len(), 3),
        buf.subrange(p + 3, p + 3 + c.len()) == c,
        buf.subrange(p + 3 + c.len(), p + 5 + c.len()) == be_bytes(0, 2),
    ensures
        super::client::entries_from(buf, p, end) == match super::client::entries_from(
            buf,
            p + 5 + c.len(),
            end,
        ) {
            Ok(rest) => Ok::<Seq<Seq<u8>>, TlsFault>(seq![c] + rest),
            Err(f) => Err(f),
        },
{
    lemma_pow256();
    lemma_be_round_trip(c.len(), 3);
    lemma_be_round_trip(0, 2);
    let behind = p + 3 + c.len();
    assert(super::client::entry_fault(buf, behind + 2, behind + 2) is None);
}

/// The entries of a chain begin with its first certificate.
proof fn lemma_first_entry(head: Seq<u8>, chain: Seq<Seq<u8>>)
    requires
        chain.len() > 0,
    ensures
        ({
            let c = chain[0];
            let p = head.len() as int;
            let buf = head + entries_bytes(chain);
            let first = be_bytes(c.len(), 3) + c + be_bytes(0, 2);
            &&& first.len() == 5 + c.len()
            &&& buf == head + first + entries_bytes(chain.skip(1))
            &&& buf.len() == p + entries_bytes(chain).len()
            &&& entries_bytes(chain).len() == 5 + c.len() + entries_bytes(chain.skip(1)).len()
            &&& buf.subrange(p, p + 3) == be_bytes(c.len(), 3)
            &&& buf.subrange(p + 3, p + 3 + c.len()) == c
            &&& buf.subrange(p + 3 + c.len(), p + 5 + c.len()) == be_bytes(0, 2)
        }),
{
    let c = chain[0];
    let p = head.len() as int;
    let buf = head + entries_bytes(chain);
    let first = be_bytes(c.len(), 3) + c + be_bytes(0, 2);
    lemma_be_bytes_len(c.len(), 3);
    lemma_be_bytes_len(0, 2);
    assert(buf =~= head + first + entries_bytes(chain.skip(1)));
    assert(buf.subrange(p, p + 3) =~= be_bytes(c.len(), 3));
    assert(buf.subrange(p + 3, p + 3 + c.len()) =~= c);
    assert(buf.subrange(p + 3 + c.len(), p + 5 + c.len()) =~= be_bytes(0, 2));
}

proof fn lemma_entries_read(head: Seq<u8>, chain: Seq<Seq<u8>>)
    requires
        forall|i: int| 0 <= i < chain.len() ==> (#[trigger] chain[i]).len() < 0x100_0000,
    ensures
        super::client::entries_from(
            head + entries_bytes(chain),
            head.len() as int,
            (head.len() + entries_bytes(chain).len()) as int,
        ) == Ok::<Seq<Seq<u8>>, TlsFault>(chain),
    decreases chain.len(),
{
    if chain.len() == 0 {
        assert(chain =~= Seq::empty());
    } else {
        let c = chain[0];
        let rest = chain.skip(1);
        let first = be_bytes(c.len(), 3) + c + be_bytes(0, 2);
        let buf = head + entries_bytes(chain);
        let p = head.len() as int;
        lemma_first_entry(head, chain);
        assert forall|i: int| 0 <= i < rest.len() implies (#[trigger] rest[i]).len()
            < 0x100_0000 by {
            assert(rest[i] == chain[i + 1]);
        }
        lemma_entries_read(head + first, rest);
        lemma_entry_read(buf, p, p + entries_bytes(chain).len(), c);
        assert(seq![c] + rest =~= chain);
    }
}

/// A `Certificate` message is read as the chain that it was written from, and the first
/// certificate is the one that is asked about. A message for a request that was never made
/// is refused.
pub proof fn lemma_chain_round_trip(s: FlightView, chain: Seq<Seq<u8>>, msg: Seq<u8>, context: u8)
    requires
        chain.len() > 0,
        forall|i: int| 0 <= i < chain.len() ==> (#[trigger] chain[i]).len() < 0x100_0000,
        entries_bytes(chain).len() < 0x100_0000,
        s.leaf is None,
        context != 0,
    ensures
        ({
            let rest = be_bytes(entries_bytes(chain).len(), 3) + entries_bytes(chain);
            let body = seq![0u8] + rest;
            &&& chain_of(body) == Ok::<Seq<Seq<u8>>, TlsFault>(chain)
            &&& leaf_read(chain[0]) matches Ok(leaf) ==> (on_cert(s, body, msg) matches MessageOutcome::Ask(
                der,
                l,
                c,
                t,
            ) && der == chain[0] && l == leaf && c == chain && t == (FlightView {
                leaf: Some((chain[0], leaf)),
                transcript: s.transcript + msg,
                ..s
            }))
            &&& leaf_read(chain[0]) is Err ==> on_cert(s, body, msg) is Abort
            &&& chain_of(seq![context] + rest) is Err
        }),
{
    let n = entries_bytes(chain).len();
    let head = seq![0u8] + be_bytes(n, 3);
    let body = head + entries_bytes(chain);
    lemma_pow256();
    lemma_be_round_trip(n, 3);
    assert(seq![0u8] + (be_bytes(n, 3) + entries_bytes(chain)) =~= body);
    assert(body[0] == 0);
    assert(body.subrange(1, 4) =~= be_bytes(n, 3));
    lemma_entries_read(head, chain);
}

// ---------------------------------------------------------------------------
// Negotiation
// ---------------------------------------------------------------------------

/// The protocol that the server selects is taken where it was offered, and the handshake
/// fails where it was not. Without a selection none is taken.
pub proof fn lemma_protocol_selected(
    s: FlightView,
    name: Seq<u8>,
    before: Seq<(u16, Seq<u8>)>,
    behind: Seq<(u16, Seq<u8>)>,
    msg: Seq<u8>,
)
    requires
        !s.saw_ee,
        name.len() < 256,
        forall|i: int| 0 <= i < before.len() ==> (#[trigger] before[i]).0 != 0x10,
        exts_fit(
            before + seq![
                (0x10u16, be_bytes(1 + name.len(), 2) + seq![name.len() as u8] + name),
            ] + behind,
        ),
        exts_bytes(
            before + seq![
                (0x10u16, be_bytes(1 + name.len(), 2) + seq![name.len() as u8] + name),
            ] + behind,
        ).len() < 0x1_0000,
        exts_fit(before),
        exts_bytes(before).len() < 0x1_0000,
    ensures
        ({
            let list = be_bytes(1 + name.len(), 2) + seq![name.len() as u8] + name;
            let exts = before + seq![(0x10u16, list)] + behind;
            let with = be_bytes(exts_bytes(exts).len(), 2) + exts_bytes(exts);
            let without = be_bytes(exts_bytes(before).len(), 2) + exts_bytes(before);
            let next = FlightView { saw_ee: true, transcript: s.transcript + msg, ..s };
            &&& s.offered_alpn.contains(name) ==> on_ee(s, with, msg) == MessageOutcome::Next(
                (FlightView { alpn: Some(name), ..next }),
            )
            &&& !s.offered_alpn.contains(name) ==> on_ee(s, with, msg) is Abort
            &&& on_ee(s, without, msg) == MessageOutcome::Next((FlightView { alpn: None, ..next }))
            &&& on_ee(next, with, msg) is Abort
        }),
{
    let n = name.len();
    let list = be_bytes(1 + n, 2) + seq![n as u8] + name;
    let exts = before + seq![(0x10u16, list)] + behind;
    let with = be_bytes(exts_bytes(exts).len(), 2) + exts_bytes(exts);
    let without = be_bytes(exts_bytes(before).len(), 2) + exts_bytes(before);
    let none = Seq::<u8>::empty();
    lemma_pow256();
    lemma_be_round_trip(1 + n, 2);
    lemma_ext_block_round_trip(none, exts, none);
    lemma_ext_block_round_trip(none, before, none);
    assert(none + with + none =~= with);
    assert(none + without + none =~= without);
    lemma_first_ext(before, 0x10, list, behind);
    assert(list.subrange(0, 2) =~= be_bytes(1 + n, 2));
    assert(list[2] == n);
    assert(list.subrange(3, 3 + n as int) =~= name);
    assert(selected_protocol(list) == Ok::<Seq<u8>, TlsFault>(name));
}

/// A proof of the key is refused before the certificate, under a scheme that was not
/// offered, and where it is cut short.
pub proof fn lemma_proof_refused(s: FlightView, body: Seq<u8>, msg: Seq<u8>)
    ensures
        s.leaf is None ==> on_verify(s, body, msg) is Abort,
        body.len() < 4 ==> on_verify(s, body, msg) is Abort,
        body.len() >= 4 && !s.offered_schemes.contains(u16_at(body, 0) as u16) ==> on_verify(
            s,
            body,
            msg,
        ) is Abort,
        on_verify(s, body, msg) matches MessageOutcome::Next(t) ==> t == (FlightView {
            verified: true,
            transcript: s.transcript + msg,
            ..s
        }),
{
}

/// Messages of the server's flight are taken by their numbers (RFC 8446 section 4). A key
/// update does not belong there, nor a second hello, nor a request for a certificate.
pub proof fn lemma_flight_numbers(s: FlightView, msg: Seq<u8>)
    ensures
        on_hs_message(s, 8, msg) == on_ee(s, msg.skip(4), msg),
        on_hs_message(s, 11, msg) == on_cert(s, msg.skip(4), msg),
        on_hs_message(s, 15, msg) == on_verify(s, msg.skip(4), msg),
        on_hs_message(s, 20, msg) == on_finished(s, msg.skip(4), msg),
        on_hs_message(s, 4, msg) == MessageOutcome::Next(s),
        on_hs_message(s, 24, msg) is Abort,
        on_hs_message(s, 2, msg) is Abort,
        on_hs_message(s, 1, msg) is Abort,
        on_hs_message(s, 13, msg) is Abort,
{
}

// ---------------------------------------------------------------------------
// Records
// ---------------------------------------------------------------------------

/// The hello goes out whole in one handshake record. A change of cipher follows it where one
/// is asked for and the hello has a shape.
pub proof fn lemma_first_flight(c: &Tls13ClientConfig, hello: Seq<u8>)
    requires
        hello.len() < 0x4000,
    ensures
        ({
            let out = first_flight(c, hello);
            let n = 5 + hello.len() as int;
            &&& out[0] == 22
            &&& out[1] == 3
            &&& be_value(out.subrange(3, 5)) == hello.len()
            &&& out.subrange(5, n) == hello
            &&& c.compatibility_ccs && !(c.fingerprint is Off) ==> out.len() == n + 6 && out[n] == 20
                && out[n + 5] == 1
            &&& !c.compatibility_ccs || c.fingerprint is Off ==> out.len() == n
        }),
{
    let out = first_flight(c, hello);
    lemma_pow256();
    lemma_be_round_trip(hello.len(), 2);
    lemma_be_round_trip(1, 2);
    assert(out.subrange(3, 5) =~= be_bytes(hello.len(), 2));
    assert(out.subrange(5, 5 + hello.len() as int) =~= hello);
}

/// The first record of the server's that counts is its hello: a change of cipher before it
/// is passed over, an alert ends the handshake, and another message is refused.
pub proof fn lemma_hello_record(payload: Seq<u8>, body: Seq<u8>, rest: Seq<u8>, kind: u8)
    requires
        body.len() < 0x100_0000,
    ensures
        hello_in_record(20, payload) == Ok::<Option<Seq<u8>>, TlsFault>(None),
        hello_in_record(21, payload) matches Err(f) && f is Alert,
        hello_in_record(23, payload) is Err,
        hello_in_record(22, hs_bytes(2, body) + rest) == Ok::<Option<Seq<u8>>, TlsFault>(
            Some(hs_bytes(2, body)),
        ),
        kind != 2 ==> hello_in_record(22, hs_bytes(kind, body) + rest) is Err,
{
    lemma_message_read(2, body, rest);
    lemma_message_read(kind, body, rest);
    lemma_be_bytes_len(body.len(), 3);
    assert((hs_bytes(2, body) + rest).take(4 + body.len() as int) =~= hs_bytes(2, body));
}

proof fn lemma_message_read(kind: u8, body: Seq<u8>, rest: Seq<u8>)
    requires
        body.len() < 0x100_0000,
    ensures
        hs_at(hs_bytes(kind, body) + rest) == Some((kind, body)),
{
    let all = hs_bytes(kind, body) + rest;
    lemma_pow256();
    lemma_be_round_trip(body.len(), 3);
    assert(all[0] == kind);
    assert(all.subrange(1, 4) =~= be_bytes(body.len(), 3));
    assert(all.subrange(4, 4 + body.len() as int) =~= body);
}

/// An alert says what its two bytes say. A notice of closing ends the data, a fatal alert
/// the connection, and another warning nothing.
pub proof fn lemma_alerts(level: u8, description: u8)
    ensures
        ({
            let payload = seq![level, description];
            &&& alert_of(payload) == (level, description)
            &&& description == 0 ==> alert_outcome(payload) == Some(FillOutcome::Closed)
            &&& description != 0 && level == 2 ==> alert_outcome(payload) == Some(
                FillOutcome::Failed(TlsFault::Alert(2, description)),
            )
            &&& description != 0 && level != 2 ==> alert_outcome(payload) is None
        }),
{
}

/// Behind the handshake a record that is not protected carries no message, a change of
/// cipher is passed over, and application data that opens is added behind what waits to be
/// read.
pub proof fn lemma_record_taken(s: StreamView, body: Seq<u8>)
    ensures
        take_record(s, 20, body) == (None::<FillOutcome>, s),
        take_record(s, 22, body) matches (Some(FillOutcome::Failed(_)), t) && t == s,
        ({
            let (o, t) = take_record(s, 23, body);
            &&& s.read.content(body) is Err ==> (o matches Some(FillOutcome::Failed(_))
                && t.plaintext == s.plaintext)
            &&& match s.read.content(body) {
                Ok((inner, data)) => {
                    &&& inner == 23 && data.len() > 0 ==> o == Some(FillOutcome::Data)
                        && t.plaintext == s.plaintext + data
                    &&& inner == 23 && data.len() == 0 ==> o is None && t.plaintext == s.plaintext
                    &&& inner == 21 ==> o == alert_outcome(data) && t.plaintext == s.plaintext
                },
                Err(_) => true,
            }
        }),
{
}

/// Behind the handshake a ticket changes nothing, a key update is one byte that says whether
/// one is wanted in return, and any other message is refused.
pub proof fn lemma_messages_behind(s: StreamView, body: Seq<u8>, kind: u8)
    ensures
        after_post(s, 4, body) == Ok::<StreamView, TlsFault>(s),
        after_post(s, 24, seq![0u8]) matches Ok(t) && t.key_update_response
            == s.key_update_response && t.write == s.write && t.write_secret == s.write_secret,
        after_post(s, 24, seq![1u8]) matches Ok(t) && t.key_update_response && t.write == s.write
            && t.plaintext == s.plaintext,
        body.len() != 1 || body[0] > 1 ==> after_post(s, 24, body) is Err,
        kind != 4 && kind != 24 ==> after_post(s, kind, body) is Err,
{
}

/// The content of a record is what stands before its type, whatever padding is behind it. A
/// record of padding alone is refused.
pub proof fn lemma_inner_round_trip(data: Seq<u8>, kind: u8, n: nat)
    requires
        20 <= kind <= 23,
    ensures
        inner_content(data.push(kind) + Seq::new(n, |i: int| 0u8)) == Ok::<
            (u8, Seq<u8>),
            TlsFault,
        >((kind, data)),
        inner_content(Seq::new(n, |i: int| 0u8)) is Err,
{
    lemma_padding(data.push(kind), n);
    lemma_padding(Seq::empty(), n);
    let inner = data.push(kind) + Seq::new(n, |i: int| 0u8);
    assert(inner.take(data.len() as int) =~= data);
    assert(Seq::<u8>::empty() + Seq::new(n, |i: int| 0u8) =~= Seq::new(n, |i: int| 0u8));
}

proof fn lemma_padding(s: Seq<u8>, n: nat)
    requires
        s.len() == 0 || s.last() != 0,
    ensures
        unpadded_len(s + Seq::new(n, |i: int| 0u8)) == s.len(),
    decreases n,
{
    let all = s + Seq::new(n, |i: int| 0u8);
    if n == 0 {
        assert(all =~= s);
    } else {
        lemma_padding(s, (n - 1) as nat);
        assert(all.drop_last() =~= s + Seq::new((n - 1) as nat, |i: int| 0u8));
    }
}

/// A record's head is read as its type and its length, for every version of TLS 1.x, where
/// the length is one that a record may have.
pub proof fn lemma_record_head(kind: u8, minor: u8, n: nat, rest: Seq<u8>)
    requires
        n < 0x1_0000,
    ensures
        ({
            let head = seq![kind, 3u8, minor] + be_bytes(n, 2) + rest;
            &&& minor <= 4 && n <= 16_640 ==> header_at(head) == Ok::<(u8, nat), TlsFault>((kind, n))
            &&& minor > 4 || n > 16_640 ==> header_at(head) is Err
        }),
        header_bytes(kind, n) == seq![kind, 3u8, 3u8] + be_bytes(n, 2),
{
    let head = seq![kind, 3u8, minor] + be_bytes(n, 2) + rest;
    lemma_pow256();
    lemma_be_round_trip(n, 2);
    assert(head.subrange(3, 5) =~= be_bytes(n, 2));
}

} // verus!
