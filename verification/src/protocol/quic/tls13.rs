//! The TLS 1.3 client handshake over QUIC (RFC 8446 section 4, RFC 9001 section 4): bytes
//! of the CRYPTO stream go in, traffic secrets and the client's messages come out.

use super::error::{protocol, QuicError, QuicFault, Result};
use super::params::{
    client_params, encode_client_tp, params_of, parse_tp, ParamsView, TransportParameters,
};
use super::protect::{PacketKey, PacketKeyView};
use crate::crypto::{
    digest, digest_of, fill_random, mac, mac_of, x25519, x25519_of, x25519_public, HashAlg,
    BASE_POINT,
};
use crate::protocol::tls13::codec::{
    cert_verify_content, encode_extension, exts_bytes, exts_view, find_extension, first_ext, hs_at,
    hs_bytes, hs_message, is_supported_suite, known_suite, lemma_exts_bytes_push, read_u16,
    signature_valid, suite_hash_len, take_hs_message, u16_at, verify_content, verify_signature,
    DOWNGRADE_TLS12, EXT_ALPN, EXT_KEY_SHARE, EXT_SERVER_NAME, EXT_SIGNATURE_ALGORITHMS,
    EXT_SUPPORTED_GROUPS, EXT_SUPPORTED_VERSIONS, GROUP_X25519, HRR_RANDOM, HS_CERTIFICATE,
    HS_CERTIFICATE_VERIFY, HS_CLIENT_HELLO, HS_ENCRYPTED_EXTENSIONS, HS_FINISHED,
    HS_NEW_SESSION_TICKET, HS_SERVER_HELLO, SIG_ECDSA_SECP256R1_SHA256, SIG_ECDSA_SECP384R1_SHA384, SIG_ED25519, SIG_RSA_PSS_SHA256,
    SIG_RSA_PSS_SHA384, SUITE_AES_256,
};
use crate::protocol::tls13::fingerprint::{server_name_body, sni_body};
use crate::protocol::tls13::key_schedule::{
    derived, handshake_secret_of, hash_for, labeled, master_secret_of, zeros, SuiteHash,
};
use crate::text::{decimal, hex_padded, owned, push_decimal, push_hex_padded, strings_view};
use crate::wire::{
    array32, be_bytes, be_value, copy_range, ct_eq, extend, lemma_be_value_bytes,
    lemma_pow256, lists_view, matches_at, push_be, read_be, repeat,
};
use crate::x509::{
    chain_verdict, hostname_matches, hostname_ok, leaf_read, read_leaf, root_certs,
    check_chain, LeafCertificate, LeafView,
};
use courierust::courierust_tls::crypto::{hash, hmac, rng};
use courierust::courierust_tls::x509::RootStore;
use vstd::prelude::*;
use vstd::slice::*;
use vstd::string::*;
use vstd::utf8::encode_utf8;

verus! {

/// The `quic_transport_parameters` extension (RFC 9001 section 8.2).
pub const EXT_QUIC_TP: u16 = 0x39;

/// `courierust_tls::crypto::hmac::expand_label` with a fresh state of the suite's hash:
/// HKDF-Expand-Label.
#[verifier::external_body]
fn expand_label(h: SuiteHash, secret: &[u8], label: &[u8], context: &[u8], len: usize) -> (r: Vec<
    u8,
>)
    requires
        label@.len() <= 249,
        context@.len() <= 255,
        len <= 255 * 32,
    ensures
        r@ == labeled(h, secret@, label@, context@, len as nat),
        r@.len() == len,
{
    match h {
        SuiteHash::Sha256 => hmac::expand_label(&mut hash::Sha256::new(), secret, label, context, len),
        SuiteHash::Sha384 => hmac::expand_label(&mut hash::Sha384::new(), secret, label, context, len),
    }
}

/// The first two draws of 32 bytes from the generator with a seed.
pub uninterp spec fn seeded_pair(seed: Seq<u8>) -> (Seq<u8>, Seq<u8>);

/// `courierust_tls::crypto::rng::ChaChaRng::from_seed`, then `random_32` twice: bytes that
/// depend on the seed alone.
#[verifier::external_body]
pub(crate) fn draw_pair(seed: &[u8; 44]) -> (r: ([u8; 32], [u8; 32]))
    ensures
        (r.0@, r.1@) == seeded_pair(seed@),
{
    let mut rng = rng::ChaChaRng::from_seed(seed);
    let first = rng.random_32();
    (first, rng.random_32())
}

// ---------------------------------------------------------------------------
// ClientHello
// ---------------------------------------------------------------------------

/// Protocol names, each behind its length in one byte.
pub open spec fn name_list(names: Seq<Seq<char>>) -> Seq<u8>
    decreases names.len(),
{
    if names.len() == 0 {
        Seq::empty()
    } else {
        name_list(names.drop_last()) + seq![(encode_utf8(names.last()).len() % 256) as u8]
            + encode_utf8(names.last())
    }
}

/// The signature schemes on offer: RSA-PSS and ECDSA with SHA-256 and SHA-384, Ed25519.
pub open spec fn scheme_list() -> Seq<u8> {
    be_bytes(10, 2) + be_bytes(SIG_RSA_PSS_SHA256 as nat, 2) + be_bytes(SIG_RSA_PSS_SHA384 as nat, 2)
        + be_bytes(SIG_ECDSA_SECP256R1_SHA256 as nat, 2) + be_bytes(
        SIG_ECDSA_SECP384R1_SHA384 as nat,
        2,
    ) + be_bytes(SIG_ED25519 as nat, 2)
}

/// The extensions of the `ClientHello`.
pub open spec fn hello_exts(
    server_name: Seq<char>,
    alpn: Seq<Seq<char>>,
    params: Seq<u8>,
    key_share: Seq<u8>,
) -> Seq<(u16, Seq<u8>)> {
    let first = seq![
        (EXT_SERVER_NAME, sni_body(server_name)),
        (EXT_SUPPORTED_GROUPS, seq![0u8, 2, 0, 0x1d]),
        (EXT_SIGNATURE_ALGORITHMS, scheme_list()),
        (EXT_SUPPORTED_VERSIONS, seq![2u8, 3, 4]),
    ];
    let names = name_list(alpn);
    let with_alpn = if alpn.len() == 0 {
        first
    } else {
        first.push((EXT_ALPN, be_bytes(names.len(), 2) + names))
    };
    with_alpn.push((EXT_QUIC_TP, params)).push(
        (EXT_KEY_SHARE, be_bytes(36, 2) + seq![0u8, 0x1d] + be_bytes(32, 2) + key_share),
    )
}

/// The `ClientHello` message.
pub open spec fn hello_message(
    server_name: Seq<char>,
    alpn: Seq<Seq<char>>,
    params: Seq<u8>,
    random: Seq<u8>,
    key_share: Seq<u8>,
) -> Seq<u8> {
    let exts = exts_bytes(hello_exts(server_name, alpn, params, key_share));
    hs_bytes(
        HS_CLIENT_HELLO,
        seq![3u8, 3] + random + seq![0u8] + seq![0u8, 6, 0x13, 1, 0x13, 2, 0x13, 3] + seq![1u8, 0]
            + be_bytes(exts.len(), 2) + exts,
    )
}

fn push_names(out: &mut Vec<u8>, names: &Vec<String>)
    ensures
        final(out)@ == old(out)@ + name_list(strings_view(names@)),
{
    let ghost all = strings_view(names@);
    let mut i: usize = 0;
    proof {
        assert(all.take(0) =~= Seq::empty());
        assert(out@ =~= old(out)@ + name_list(all.take(0)));
    }
    while i < names.len()
        invariant
            i <= names@.len(),
            all == strings_view(names@),
            out@ == old(out)@ + name_list(all.take(i as int)),
        decreases names@.len() - i,
    {
        let bytes = names[i].as_str().as_bytes();
        out.push((bytes.len() % 256) as u8);
        extend(out, bytes);
        proof {
            assert(all.take(i + 1).drop_last() =~= all.take(i as int));
            assert(all.take(i + 1).last() == names@[i as int]@);
            assert(out@ =~= old(out)@ + name_list(all.take(i + 1)));
        }
        i = i + 1;
    }
    proof {
        assert(all.take(i as int) =~= all);
    }
}

fn push_ext(out: &mut Vec<u8>, t: u16, data: &[u8], Ghost(exts): Ghost<Seq<(u16, Seq<u8>)>>)
    requires
        old(out)@ == exts_bytes(exts),
    ensures
        final(out)@ == exts_bytes(exts.push((t, data@))),
{
    let ext = encode_extension(t, data);
    extend(out, &ext);
    proof {
        lemma_exts_bytes_push(exts, (t, data@));
    }
}

/// Assemble the `ClientHello`.
fn client_hello(
    server_name: &str,
    alpn: &Vec<String>,
    params: &[u8],
    random: &[u8; 32],
    key_share: &[u8; 32],
) -> (r: Vec<u8>)
    ensures
        r@ == hello_message(server_name@, strings_view(alpn@), params@, random@, key_share@),
{
    let ghost mut exts: Seq<(u16, Seq<u8>)> = Seq::empty();
    let mut wire: Vec<u8> = Vec::new();
    let sni = server_name_body(server_name);
    push_ext(&mut wire, EXT_SERVER_NAME, &sni, Ghost(exts));
    proof {
        exts = exts.push((EXT_SERVER_NAME, sni@));
    }
    push_ext(&mut wire, EXT_SUPPORTED_GROUPS, &[0x00, 0x02, 0x00, 0x1d], Ghost(exts));
    proof {
        exts = exts.push((EXT_SUPPORTED_GROUPS, seq![0u8, 2, 0, 0x1d]));
        assert([0x00u8, 0x02, 0x00, 0x1d]@ =~= seq![0u8, 2, 0, 0x1d]);
    }
    let mut schemes: Vec<u8> = Vec::new();
    push_be(&mut schemes, 10, 2);
    push_be(&mut schemes, SIG_RSA_PSS_SHA256 as u64, 2);
    push_be(&mut schemes, SIG_RSA_PSS_SHA384 as u64, 2);
    push_be(&mut schemes, SIG_ECDSA_SECP256R1_SHA256 as u64, 2);
    push_be(&mut schemes, SIG_ECDSA_SECP384R1_SHA384 as u64, 2);
    push_be(&mut schemes, SIG_ED25519 as u64, 2);
    push_ext(&mut wire, EXT_SIGNATURE_ALGORITHMS, &schemes, Ghost(exts));
    proof {
        assert(schemes@ =~= scheme_list());
        exts = exts.push((EXT_SIGNATURE_ALGORITHMS, schemes@));
    }
    push_ext(&mut wire, EXT_SUPPORTED_VERSIONS, &[0x02, 0x03, 0x04], Ghost(exts));
    proof {
        exts = exts.push((EXT_SUPPORTED_VERSIONS, seq![2u8, 3, 4]));
        assert([0x02u8, 0x03, 0x04]@ =~= seq![2u8, 3, 4]);
    }
    if alpn.len() != 0 {
        let mut list: Vec<u8> = Vec::new();
        push_names(&mut list, alpn);
        let mut body: Vec<u8> = Vec::new();
        push_be(&mut body, list.len() as u64, 2);
        extend(&mut body, &list);
        push_ext(&mut wire, EXT_ALPN, &body, Ghost(exts));
        proof {
            assert(list@ =~= name_list(strings_view(alpn@)));
            assert(body@ =~= be_bytes(list@.len(), 2) + list@);
            exts = exts.push((EXT_ALPN, body@));
        }
    }
    push_ext(&mut wire, EXT_QUIC_TP, params, Ghost(exts));
    proof {
        exts = exts.push((EXT_QUIC_TP, params@));
    }
    let mut share: Vec<u8> = Vec::new();
    push_be(&mut share, 36, 2);
    push_be(&mut share, GROUP_X25519 as u64, 2);
    push_be(&mut share, 32, 2);
    extend(&mut share, key_share);
    push_ext(&mut wire, EXT_KEY_SHARE, &share, Ghost(exts));
    proof {
        reveal_with_fuel(be_bytes, 3);
        assert(share@ =~= be_bytes(36, 2) + seq![0u8, 0x1d] + be_bytes(32, 2) + key_share@);
        exts = exts.push((EXT_KEY_SHARE, share@));
        assert(exts =~= hello_exts(server_name@, strings_view(alpn@), params@, key_share@));
    }
    let mut body: Vec<u8> = Vec::new();
    extend(&mut body, &[0x03, 0x03]);
    extend(&mut body, random);
    body.push(0x00);
    extend(&mut body, &[0x00, 0x06, 0x13, 0x01, 0x13, 0x02, 0x13, 0x03]);
    extend(&mut body, &[0x01, 0x00]);
    push_be(&mut body, wire.len() as u64, 2);
    extend(&mut body, &wire);
    proof {
        assert(body@ =~= seq![3u8, 3] + random@ + seq![0u8] + seq![
            0u8,
            6,
            0x13,
            1,
            0x13,
            2,
            0x13,
            3,
        ] + seq![1u8, 0] + be_bytes(wire@.len(), 2) + wire@);
    }
    hs_message(HS_CLIENT_HELLO, &body)
}

// ---------------------------------------------------------------------------
// Messages of the server
// ---------------------------------------------------------------------------

/// The extensions of `buf[pos..end]` behind those already read. No type may occur twice.
pub open spec fn exts_behind(
    buf: Seq<u8>,
    pos: int,
    end: int,
    before: Seq<(u16, Seq<u8>)>,
) -> core::result::Result<Seq<(u16, Seq<u8>)>, QuicFault>
    decreases end - pos,
{
    if pos >= end {
        Ok(before)
    } else if end - pos < 4 {
        Err(QuicFault::Protocol("truncated extension"@))
    } else {
        let t = u16_at(buf, pos) as u16;
        let len = u16_at(buf, pos + 2);
        if end - (pos + 4) < len {
            Err(QuicFault::Protocol("truncated extension data"@))
        } else if first_ext(before, t) is Some {
            Err(QuicFault::Protocol("duplicate TLS extension"@))
        } else {
            exts_behind(
                buf,
                pos + 4 + len,
                end,
                before.push((t, buf.subrange(pos + 4, pos + 4 + len))),
            )
        }
    }
}

/// The extension block at `pos`.
pub open spec fn exts_at(buf: Seq<u8>, pos: int) -> core::result::Result<
    Seq<(u16, Seq<u8>)>,
    QuicFault,
> {
    if buf.len() - pos < 2 || buf.len() - (pos + 2) < u16_at(buf, pos) {
        Err(QuicFault::Protocol("truncated extensions"@))
    } else {
        exts_behind(buf, pos + 2, pos + 2 + u16_at(buf, pos), Seq::empty())
    }
}

/// Parse the extension block of `buf` at `at`, refusing a repeated type.
pub fn parse_extensions(buf: &[u8], at: usize) -> (r: Result<Vec<(u16, Vec<u8>)>>)
    requires
        at <= buf@.len(),
    ensures
        match exts_at(buf@, at as int) {
            Ok(exts) => r is Ok && exts_view(r->Ok_0@) == exts,
            Err(f) => r is Err && r->Err_0@ == f,
        },
{
    if buf.len() - at < 2 {
        return Err(protocol("truncated extensions"));
    }
    let total: usize = read_u16(buf, at) as usize;
    let mut pos: usize = at + 2;
    if buf.len() - pos < total {
        return Err(protocol("truncated extensions"));
    }
    let end: usize = pos + total;
    let mut out: Vec<(u16, Vec<u8>)> = Vec::new();
    proof {
        assert(exts_view(out@) =~= Seq::empty());
    }
    while pos < end
        invariant
            pos <= end <= buf@.len(),
            exts_at(buf@, at as int) == exts_behind(
                buf@,
                pos as int,
                end as int,
                exts_view(out@),
            ),
        decreases end - pos,
    {
        if end - pos < 4 {
            return Err(protocol("truncated extension"));
        }
        let t: u16 = read_u16(buf, pos);
        let len: usize = read_u16(buf, pos + 2) as usize;
        if end - (pos + 4) < len {
            return Err(protocol("truncated extension data"));
        }
        if find_extension(&out, t).is_some() {
            return Err(protocol("duplicate TLS extension"));
        }
        let data = copy_range(buf, pos + 4, pos + 4 + len);
        let ghost before = exts_view(out@);
        out.push((t, data));
        proof {
            assert(exts_view(out@) =~= before.push((t, data@)));
        }
        pos = pos + 4 + len;
    }
    Ok(out)
}

/// The X25519 key in a `key_share` extension of the server.
pub open spec fn share_of(data: Seq<u8>) -> core::result::Result<Seq<u8>, QuicFault> {
    if data.len() < 34 || u16_at(data, 0) != GROUP_X25519 {
        Err(QuicFault::Protocol("ServerHello key_share is not X25519"@))
    } else if data.len() < 36 || u16_at(data, 2) != 32 {
        Err(QuicFault::Protocol("invalid ServerHello key_share"@))
    } else {
        Ok(data.subrange(4, 36))
    }
}

/// The cipher suite and the key share of a `ServerHello`, or why it is refused.
pub open spec fn hello_of(body: Seq<u8>) -> core::result::Result<(u16, Seq<u8>), QuicFault> {
    if body.len() < 35 {
        Err(QuicFault::Protocol("truncated ServerHello"@))
    } else if body.subrange(2, 34) == HRR_RANDOM@ {
        Err(QuicFault::Protocol("HelloRetryRequest unsupported (only X25519 offered)"@))
    } else if body.subrange(26, 34) == DOWNGRADE_TLS12@ {
        Err(QuicFault::Protocol("server signals TLS 1.2 downgrade; rejecting"@))
    } else if body.len() < 38 + body[34] {
        Err(QuicFault::Protocol("truncated ServerHello"@))
    } else {
        let at = 35 + body[34] as int;
        let suite = u16_at(body, at) as u16;
        if !known_suite(suite) {
            Err(
                QuicFault::Protocol(
                    "server selected unsupported cipher suite 0x"@ + hex_padded(suite as nat, 4),
                ),
            )
        } else if body[at + 2] != 0 {
            Err(QuicFault::Protocol("server selected a compression method"@))
        } else {
            match exts_at(body, at + 3) {
                Err(f) => Err(f),
                Ok(exts) => match first_ext(exts, EXT_KEY_SHARE) {
                    None => Err(QuicFault::Protocol("ServerHello missing key_share"@)),
                    Some(data) => match share_of(data) {
                        Err(f) => Err(f),
                        Ok(key) => Ok((suite, key)),
                    },
                },
            }
        }
    }
}

/// Parse a `ServerHello`: the cipher suite and the key share.
pub fn parse_hello(body: &[u8]) -> (r: Result<(u16, [u8; 32])>)
    ensures
        match hello_of(body@) {
            Ok((suite, key)) => r is Ok && r->Ok_0.0 == suite && r->Ok_0.1@ == key && known_suite(
                suite,
            ),
            Err(f) => r is Err && r->Err_0@ == f,
        },
{
    if body.len() < 35 {
        return Err(protocol("truncated ServerHello"));
    }
    if matches_at(body, 2, &HRR_RANDOM) {
        return Err(protocol("HelloRetryRequest unsupported (only X25519 offered)"));
    }
    if matches_at(body, 26, &DOWNGRADE_TLS12) {
        return Err(protocol("server signals TLS 1.2 downgrade; rejecting"));
    }
    let sid_len: usize = body[34] as usize;
    if body.len() < 35 + sid_len + 3 {
        return Err(protocol("truncated ServerHello"));
    }
    let at: usize = 35 + sid_len;
    let suite: u16 = read_u16(body, at);
    if !is_supported_suite(suite) {
        let mut m = owned("server selected unsupported cipher suite 0x");
        push_hex_padded(&mut m, suite as u64, 4);
        return Err(QuicError::Protocol(m));
    }
    if body[at + 2] != 0x00 {
        return Err(protocol("server selected a compression method"));
    }
    let exts = match parse_extensions(body, at + 3) {
        Ok(e) => e,
        Err(e) => return Err(e),
    };
    let share = match find_extension(&exts, EXT_KEY_SHARE) {
        Some(d) => d,
        None => return Err(protocol("ServerHello missing key_share")),
    };
    if share.len() < 34 || read_u16(share, 0) != GROUP_X25519 {
        return Err(protocol("ServerHello key_share is not X25519"));
    }
    if share.len() < 36 || read_u16(share, 2) != 32 {
        return Err(protocol("invalid ServerHello key_share"));
    }
    let key = array32(slice_subrange(share.as_slice(), 4, 36));
    Ok((suite, key))
}

/// The last protocol name of an ALPN extension, from `pos` on.
pub open spec fn last_name(data: Seq<u8>, pos: int, chosen: Option<Seq<u8>>) -> core::result::Result<
    Option<Seq<u8>>,
    QuicFault,
>
    decreases data.len() - pos,
{
    if pos < 0 || pos >= data.len() {
        Ok(chosen)
    } else if pos + 1 + data[pos] > data.len() {
        Err(QuicFault::Protocol("truncated ALPN entry"@))
    } else {
        last_name(
            data,
            pos + 1 + data[pos],
            Some(data.subrange(pos + 1, pos + 1 + data[pos])),
        )
    }
}

/// The protocol that an ALPN extension names.
pub open spec fn alpn_of(data: Seq<u8>) -> core::result::Result<Option<Seq<u8>>, QuicFault> {
    if data.len() < 2 || data.len() < 2 + u16_at(data, 0) {
        Err(QuicFault::Protocol("truncated ALPN"@))
    } else {
        last_name(data, 2, None)
    }
}

/// The bytes of an optional list.
pub open spec fn opt_bytes(v: Option<Vec<u8>>) -> Option<Seq<u8>> {
    match v {
        Some(b) => Some(b@),
        None => None,
    }
}

fn parse_alpn(data: &[u8]) -> (r: Result<Option<Vec<u8>>>)
    ensures
        match alpn_of(data@) {
            Ok(name) => r is Ok && opt_bytes(r->Ok_0) == name,
            Err(f) => r is Err && r->Err_0@ == f,
        },
{
    if data.len() < 2 {
        return Err(protocol("truncated ALPN"));
    }
    if data.len() - 2 < read_u16(data, 0) as usize {
        return Err(protocol("truncated ALPN"));
    }
    let mut pos: usize = 2;
    let mut chosen: Option<Vec<u8>> = None;
    while pos < data.len()
        invariant
            pos <= data@.len(),
            alpn_of(data@) == last_name(data@, pos as int, opt_bytes(chosen)),
        decreases data@.len() - pos,
    {
        let len: usize = data[pos] as usize;
        if data.len() - pos - 1 < len {
            return Err(protocol("truncated ALPN entry"));
        }
        chosen = Some(copy_range(data, pos + 1, pos + 1 + len));
        pos = pos + 1 + len;
    }
    Ok(chosen)
}

/// Three bytes as a number.
pub open spec fn u24_at(buf: Seq<u8>, at: int) -> nat {
    be_value(buf.subrange(at, at + 3))
}

fn read_u24(buf: &[u8], at: usize) -> (r: usize)
    requires
        at + 3 <= buf@.len(),
    ensures
        r == u24_at(buf@, at as int),
{
    proof {
        lemma_pow256();
        lemma_be_value_bytes(buf@.subrange(at as int, at + 3));
    }
    read_be(buf, at, 3) as usize
}

/// The certificates of `body[pos..end]` behind those already read.
pub open spec fn certs_behind(body: Seq<u8>, pos: int, end: int, before: Seq<Seq<u8>>) -> core::result::Result<
    Seq<Seq<u8>>,
    QuicFault,
>
    decreases end - pos,
{
    if pos >= end {
        Ok(before)
    } else if end - pos < 3 {
        Err(QuicFault::Protocol("truncated certificate entry"@))
    } else {
        let len = u24_at(body, pos);
        let behind = pos + 3 + len;
        if end - (pos + 3) < len {
            Err(QuicFault::Protocol("truncated certificate data"@))
        } else if end - behind < 2 || end - (behind + 2) < u16_at(body, behind) {
            Err(QuicFault::Protocol("truncated certificate extensions"@))
        } else {
            certs_behind(
                body,
                behind + 2 + u16_at(body, behind),
                end,
                before.push(body.subrange(pos + 3, behind)),
            )
        }
    }
}

/// The certificates of a `Certificate` message, at least one.
pub open spec fn certs_of(body: Seq<u8>) -> core::result::Result<Seq<Seq<u8>>, QuicFault> {
    if body.len() < 1 || body.len() < 1 + body[0] || body.len() - (1 + body[0]) < 3 || body.len() - (
    4 + body[0]) < u24_at(body, 1 + body[0]) {
        Err(QuicFault::Protocol("truncated Certificate"@))
    } else {
        let from = 4 + body[0];
        match certs_behind(body, from, from + u24_at(body, 1 + body[0]), Seq::empty()) {
            Err(f) => Err(f),
            Ok(chain) => if chain.len() == 0 {
                Err(QuicFault::Protocol("empty certificate chain"@))
            } else {
                Ok(chain)
            },
        }
    }
}

/// Parse a `Certificate` message: the chain, leaf first.
pub fn parse_chain(body: &[u8]) -> (r: Result<Vec<Vec<u8>>>)
    ensures
        match certs_of(body@) {
            Ok(chain) => r is Ok && lists_view(r->Ok_0@) == chain && chain.len() > 0,
            Err(f) => r is Err && r->Err_0@ == f,
        },
{
    if body.len() < 1 {
        return Err(protocol("truncated Certificate"));
    }
    let context: usize = body[0] as usize;
    if body.len() - 1 < context || body.len() - 1 - context < 3 {
        return Err(protocol("truncated Certificate"));
    }
    let list_len: usize = read_u24(body, 1 + context);
    let mut pos: usize = 4 + context;
    if body.len() - pos < list_len {
        return Err(protocol("truncated Certificate"));
    }
    let end: usize = pos + list_len;
    let ghost whole = certs_behind(body@, pos as int, end as int, Seq::empty());
    let mut chain: Vec<Vec<u8>> = Vec::new();
    proof {
        assert(lists_view(chain@) =~= Seq::empty());
    }
    while pos < end
        invariant
            pos <= end <= body@.len(),
            whole == certs_behind(body@, pos as int, end as int, lists_view(chain@)),
            certs_of(body@) == (match whole {
                Err(f) => Err::<Seq<Seq<u8>>, QuicFault>(f),
                Ok(c) => if c.len() == 0 {
                    Err(QuicFault::Protocol("empty certificate chain"@))
                } else {
                    Ok(c)
                },
            }),
        decreases end - pos,
    {
        if end - pos < 3 {
            return Err(protocol("truncated certificate entry"));
        }
        let len: usize = read_u24(body, pos);
        if end - (pos + 3) < len {
            return Err(protocol("truncated certificate data"));
        }
        let cert = copy_range(body, pos + 3, pos + 3 + len);
        let behind: usize = pos + 3 + len;
        if end - behind < 2 {
            return Err(protocol("truncated certificate extensions"));
        }
        let ext_len: usize = read_u16(body, behind) as usize;
        if end - (behind + 2) < ext_len {
            return Err(protocol("truncated certificate extensions"));
        }
        let ghost before = lists_view(chain@);
        chain.push(cert);
        proof {
            assert(lists_view(chain@) =~= before.push(cert@));
        }
        pos = behind + 2 + ext_len;
    }
    if chain.len() == 0 {
        return Err(protocol("empty certificate chain"));
    }
    Ok(chain)
}

// ---------------------------------------------------------------------------
// The handshake state machine
// ---------------------------------------------------------------------------

/// Client state of the handshake.
pub struct Tls13Client {
    server_name: String,
    skip_cert_verify: bool,
    roots: RootStore,
    now: i64,
    transcript: Vec<u8>,
    client_priv: [u8; 32],
    client_hello: Vec<u8>,
    suite: Option<u16>,
    hs_write: Option<PacketKey>,
    hs_read: Option<PacketKey>,
    app_write: Option<PacketKey>,
    app_read: Option<PacketKey>,
    peer_tp: Option<TransportParameters>,
    negotiated_alpn: Option<Vec<u8>>,
    server_finished: bool,
    handshake_secret: Vec<u8>,
    client_hs_secret: Vec<u8>,
    server_hs_secret: Vec<u8>,
    leaf: Option<LeafCertificate>,
    verified: bool,
    crypto_pending: Vec<u8>,
}

/// The handshake as a mathematical value.
#[verifier::ext_equal]
pub struct HandshakeView {
    /// Name that the certificate has to cover.
    pub server_name: Seq<char>,
    /// Whether the certificate chain is taken as it is.
    pub skip_cert_verify: bool,
    /// Trusted certificates.
    pub roots: Seq<Seq<u8>>,
    /// Seconds since the epoch.
    pub now: i64,
    /// Every handshake message so far.
    pub transcript: Seq<u8>,
    /// Private key of the key share.
    pub private: Seq<u8>,
    /// The message that opened the handshake.
    pub client_hello: Seq<u8>,
    /// Cipher suite, once the server has chosen it.
    pub suite: Option<u16>,
    pub hs_write: Option<PacketKeyView>,
    pub hs_read: Option<PacketKeyView>,
    pub app_write: Option<PacketKeyView>,
    pub app_read: Option<PacketKeyView>,
    /// Transport parameters of the server.
    pub peer_tp: Option<ParamsView>,
    /// Protocol that the server chose.
    pub alpn: Option<Seq<u8>>,
    /// Whether the server's Finished was right.
    pub server_finished: bool,
    /// The secret that the key exchange gives.
    pub handshake_secret: Seq<u8>,
    pub client_hs_secret: Seq<u8>,
    pub server_hs_secret: Seq<u8>,
    /// The server's certificate.
    pub leaf: Option<LeafView>,
    /// Whether a `CertificateVerify` under the certificate's key was right.
    pub verified: bool,
    /// Messages waiting to be sent.
    pub pending: Seq<u8>,
}

pub open spec fn opt_key(k: Option<PacketKey>) -> Option<PacketKeyView> {
    match k {
        Some(k) => Some(k@),
        None => None,
    }
}

pub open spec fn opt_params(p: Option<TransportParameters>) -> Option<ParamsView> {
    match p {
        Some(p) => Some(p@),
        None => None,
    }
}

pub open spec fn opt_leaf(l: Option<LeafCertificate>) -> Option<LeafView> {
    match l {
        Some(l) => Some(l@),
        None => None,
    }
}

impl View for Tls13Client {
    type V = HandshakeView;

    closed spec fn view(&self) -> HandshakeView {
        HandshakeView {
            server_name: self.server_name@,
            skip_cert_verify: self.skip_cert_verify,
            roots: root_certs(self.roots),
            now: self.now,
            transcript: self.transcript@,
            private: self.client_priv@,
            client_hello: self.client_hello@,
            suite: self.suite,
            hs_write: opt_key(self.hs_write),
            hs_read: opt_key(self.hs_read),
            app_write: opt_key(self.app_write),
            app_read: opt_key(self.app_read),
            peer_tp: opt_params(self.peer_tp),
            alpn: opt_bytes(self.negotiated_alpn),
            server_finished: self.server_finished,
            handshake_secret: self.handshake_secret@,
            client_hs_secret: self.client_hs_secret@,
            server_hs_secret: self.server_hs_secret@,
            leaf: opt_leaf(self.leaf),
            verified: self.verified,
            pending: self.crypto_pending@,
        }
    }
}

impl HandshakeView {
    /// Keys can be derived from every key that is held, and those of the Handshake space come
    /// with the suite.
    pub open spec fn wf(self) -> bool {
        &&& self.suite is Some ==> known_suite(self.suite->0)
        &&& self.suite is None ==> self.hs_write is None && self.hs_read is None
        &&& self.hs_write is Some ==> self.hs_write->0.usable()
        &&& self.hs_read is Some ==> self.hs_read->0.usable()
        &&& self.app_write is Some ==> self.app_write->0.usable()
        &&& self.app_read is Some ==> self.app_read->0.usable()
    }

    /// The hash of the cipher suite.
    pub open spec fn hash(self) -> SuiteHash {
        match self.suite {
            Some(suite) => hash_for(suite),
            None => SuiteHash::Sha256,
        }
    }

    /// The hash of every message so far.
    pub open spec fn transcript_hash(self) -> Seq<u8> {
        digest_of(self.hash().alg(), self.transcript)
    }

    /// Whether the handshake is over: the server's Finished was right and the keys of the
    /// application space are known.
    pub open spec fn complete(self) -> bool {
        self.server_finished && self.app_write is Some
    }

    /// At the start, or again after a Retry.
    pub open spec fn restarted(self) -> HandshakeView {
        HandshakeView {
            transcript: self.client_hello,
            suite: None,
            hs_write: None,
            hs_read: None,
            app_write: None,
            app_read: None,
            peer_tp: None,
            alpn: None,
            server_finished: false,
            handshake_secret: Seq::empty(),
            client_hs_secret: Seq::empty(),
            server_hs_secret: Seq::empty(),
            leaf: None,
            verified: false,
            pending: Seq::empty(),
            ..self
        }
    }

    /// Once the server has chosen a suite and sent its key share.
    pub open spec fn keyed(self, suite: u16, share: Seq<u8>) -> HandshakeView {
        let h = hash_for(suite);
        let secret = handshake_secret_of(h, x25519_of(self.private, share));
        let transcript_hash = digest_of(h.alg(), self.transcript);
        let client = derived(h, secret, "c hs traffic".spec_bytes(), transcript_hash);
        let server = derived(h, secret, "s hs traffic".spec_bytes(), transcript_hash);
        HandshakeView {
            suite: Some(suite),
            handshake_secret: secret,
            client_hs_secret: client,
            server_hs_secret: server,
            hs_write: Some(PacketKeyView::Traffic(suite, client)),
            hs_read: Some(PacketKeyView::Traffic(suite, server)),
            ..self
        }
    }

    pub open spec fn on_server_hello(self, body: Seq<u8>) -> (
        HandshakeView,
        core::result::Result<(), QuicFault>,
    ) {
        if self.suite is Some {
            (self, Err(QuicFault::Protocol("duplicate ServerHello"@)))
        } else {
            match hello_of(body) {
                Err(f) => (self, Err(f)),
                Ok((suite, share)) => (self.keyed(suite, share), Ok(())),
            }
        }
    }

    /// What the server's extensions from the `i`th on change.
    pub open spec fn with_extensions(self, exts: Seq<(u16, Seq<u8>)>, i: int) -> (
        HandshakeView,
        core::result::Result<(), QuicFault>,
    )
        decreases exts.len() - i,
    {
        if i < 0 || i >= exts.len() {
            if self.peer_tp is None {
                (
                    self,
                    Err(
                        QuicFault::Protocol(
                            "EncryptedExtensions missing quic_transport_parameters"@,
                        ),
                    ),
                )
            } else {
                (self, Ok(()))
            }
        } else if exts[i].0 == EXT_ALPN {
            match alpn_of(exts[i].1) {
                Err(f) => (self, Err(f)),
                Ok(name) => (HandshakeView { alpn: name, ..self }).with_extensions(exts, i + 1),
            }
        } else if exts[i].0 == EXT_QUIC_TP {
            match params_of(exts[i].1) {
                Err(f) => (self, Err(f)),
                Ok(tp) => (HandshakeView { peer_tp: Some(tp), ..self }).with_extensions(
                    exts,
                    i + 1,
                ),
            }
        } else {
            self.with_extensions(exts, i + 1)
        }
    }

    pub open spec fn on_encrypted_extensions(self, body: Seq<u8>) -> (
        HandshakeView,
        core::result::Result<(), QuicFault>,
    ) {
        if self.peer_tp is Some {
            (self, Err(QuicFault::Protocol("duplicate EncryptedExtensions"@)))
        } else {
            match exts_at(body, 0) {
                Err(f) => (self, Err(f)),
                Ok(exts) => self.with_extensions(exts, 0),
            }
        }
    }

    pub open spec fn on_certificate(self, body: Seq<u8>) -> (
        HandshakeView,
        core::result::Result<(), QuicFault>,
    ) {
        if self.leaf is Some {
            (self, Err(QuicFault::Protocol("duplicate Certificate"@)))
        } else {
            match certs_of(body) {
                Err(f) => (self, Err(f)),
                Ok(chain) => match leaf_read(chain[0]) {
                    Err(m) => (self, Err(QuicFault::Certificate(m))),
                    Ok(leaf) => match chain_verdict(self.roots, chain, self.now) {
                        Some(m) if !self.skip_cert_verify => (self, Err(QuicFault::Certificate(m))),
                        _ => if !self.skip_cert_verify && !hostname_ok(
                            self.server_name,
                            leaf.dns_names,
                            leaf.ip_names,
                        ) {
                            (
                                self,
                                Err(
                                    QuicFault::Certificate(
                                        "server name '"@ + self.server_name
                                            + "' does not match the certificate"@,
                                    ),
                                ),
                            )
                        } else {
                            (HandshakeView { leaf: Some(leaf), ..self }, Ok(()))
                        },
                    },
                },
            }
        }
    }

    /// The server's `CertificateVerify`, given the transcript hash before it.
    pub open spec fn on_certificate_verify(self, body: Seq<u8>, before: Seq<u8>) -> (
        HandshakeView,
        core::result::Result<(), QuicFault>,
    ) {
        match self.leaf {
            None => (self, Err(QuicFault::Protocol("CertificateVerify before Certificate"@))),
            Some(leaf) => if body.len() < 4 {
                (self, Err(QuicFault::Protocol("truncated CertificateVerify"@)))
            } else if body.len() < 4 + u16_at(body, 2) {
                (self, Err(QuicFault::Protocol("truncated CertificateVerify signature"@)))
            } else if !signature_valid(
                leaf.key,
                u16_at(body, 0) as u16,
                verify_content(before, false),
                body.subrange(4, 4 + u16_at(body, 2) as int),
            ) {
                (
                    self,
                    Err(
                        QuicFault::Certificate(
                            "CertificateVerify signature verification failed"@,
                        ),
                    ),
                )
            } else {
                (HandshakeView { verified: true, ..self }, Ok(()))
            },
        }
    }

    /// The verify data of a Finished message over a transcript hash.
    pub open spec fn verify_data(self, secret: Seq<u8>, transcript_hash: Seq<u8>) -> Seq<u8> {
        let h = self.hash();
        mac_of(
            h.alg(),
            labeled(h, secret, "finished".spec_bytes(), Seq::empty(), h.size()),
            transcript_hash,
        )
    }

    /// Once the server's Finished is right.
    pub open spec fn finished(self) -> HandshakeView {
        let h = self.hash();
        let master = master_secret_of(h, self.handshake_secret);
        let client = derived(h, master, "c ap traffic".spec_bytes(), self.transcript_hash());
        let server = derived(h, master, "s ap traffic".spec_bytes(), self.transcript_hash());
        HandshakeView {
            server_finished: true,
            app_write: match self.suite {
                Some(suite) => Some(PacketKeyView::Traffic(suite, client)),
                None => self.app_write,
            },
            app_read: match self.suite {
                Some(suite) => Some(PacketKeyView::Traffic(suite, server)),
                None => self.app_read,
            },
            pending: self.pending + hs_bytes(
                HS_FINISHED,
                self.verify_data(self.client_hs_secret, self.transcript_hash()),
            ),
            ..self
        }
    }

    /// The server's Finished, given the transcript hash before it.
    pub open spec fn on_server_finished(self, body: Seq<u8>, before: Seq<u8>) -> (
        HandshakeView,
        core::result::Result<(), QuicFault>,
    ) {
        if self.server_finished {
            (self, Err(QuicFault::Protocol("duplicate Finished"@)))
        } else if body.len() != self.hash().size() {
            (self, Err(QuicFault::Protocol("invalid Finished length"@)))
        } else if self.verify_data(self.server_hs_secret, before) != body {
            (self, Err(QuicFault::Protocol("server Finished verification failed"@)))
        } else if self.leaf is None {
            (self, Err(QuicFault::Certificate("server did not send a Certificate message"@)))
        } else if !self.verified {
            (
                self,
                Err(QuicFault::Certificate("server did not send a CertificateVerify message"@)),
            )
        } else {
            (self.finished(), Ok(()))
        }
    }

    /// One handshake message, the transcript with it. A ticket of a handshake that is over is
    /// passed over.
    pub open spec fn on_message(self, t: u8, body: Seq<u8>) -> (
        HandshakeView,
        core::result::Result<(), QuicFault>,
    ) {
        let before = self.transcript_hash();
        let next = HandshakeView { transcript: self.transcript + hs_bytes(t, body), ..self };
        if t == HS_NEW_SESSION_TICKET && self.server_finished {
            (self, Ok(()))
        } else if t == HS_FINISHED {
            next.on_server_finished(body, before)
        } else if t == HS_SERVER_HELLO {
            next.on_server_hello(body)
        } else if t == HS_ENCRYPTED_EXTENSIONS {
            next.on_encrypted_extensions(body)
        } else if t == HS_CERTIFICATE {
            next.on_certificate(body)
        } else if t == HS_CERTIFICATE_VERIFY {
            next.on_certificate_verify(body, before)
        } else if t == HS_CLIENT_HELLO {
            (next, Err(QuicFault::Protocol("unexpected ClientHello from server"@)))
        } else {
            (
                next,
                Err(
                    QuicFault::Protocol("unexpected handshake message type "@ + decimal(t as nat)),
                ),
            )
        }
    }

    /// Every whole message of `buf` from `pos` on, up to the server's Finished: the state
    /// and where reading stopped.
    pub open spec fn consumed(self, buf: Seq<u8>, pos: int) -> (
        HandshakeView,
        core::result::Result<int, QuicFault>,
    )
        decreases buf.len() - pos,
    {
        if pos < 0 || pos >= buf.len() {
            (self, Ok(pos))
        } else {
            match hs_at(buf.skip(pos)) {
                None => (self, Ok(pos)),
                Some((t, body)) => {
                    let (next, r) = self.on_message(t, body);
                    let end = pos + 4 + body.len();
                    match r {
                        Err(f) => (next, Err(f)),
                        Ok(_) => if t == HS_FINISHED {
                            (next, Ok(end))
                        } else {
                            next.consumed(buf, end)
                        },
                    }
                },
            }
        }
    }
}

/// A handshake that has not heard from the server, with a given key share and random.
pub open spec fn opened(
    server_name: Seq<char>,
    alpn: Seq<Seq<char>>,
    skip_cert_verify: bool,
    roots: Seq<Seq<u8>>,
    now: i64,
    params: Seq<u8>,
    private: Seq<u8>,
    random: Seq<u8>,
) -> HandshakeView {
    let hello = hello_message(
        server_name,
        alpn,
        params,
        random,
        x25519_of(private, BASE_POINT@),
    );
    HandshakeView {
        server_name,
        skip_cert_verify,
        roots,
        now,
        transcript: hello,
        private,
        client_hello: hello,
        suite: None,
        hs_write: None,
        hs_read: None,
        app_write: None,
        app_read: None,
        peer_tp: None,
        alpn: None,
        server_finished: false,
        handshake_secret: Seq::empty(),
        client_hs_secret: Seq::empty(),
        server_hs_secret: Seq::empty(),
        leaf: None,
        verified: false,
        pending: hello,
    }
}

impl Tls13Client {
    /// Open a handshake with a given key share and random.
    pub fn with_entropy(
        server_name: String,
        alpn: &Vec<String>,
        skip_cert_verify: bool,
        roots: RootStore,
        now: i64,
        tp: &TransportParameters,
        scid: &[u8],
        client_priv: [u8; 32],
        random: &[u8; 32],
    ) -> (r: Self)
        ensures
            r@ == opened(
                server_name@,
                strings_view(alpn@),
                skip_cert_verify,
                root_certs(roots),
                now,
                client_params(tp@, scid@),
                client_priv@,
                random@,
            ),
            r@.wf(),
    {
        let params = encode_client_tp(tp, scid);
        let public = x25519_public(&client_priv);
        let hello = client_hello(server_name.as_str(), alpn, &params, random, &public);
        let r = Self {
            server_name,
            skip_cert_verify,
            roots,
            now,
            transcript: hello.clone(),
            client_priv,
            client_hello: hello.clone(),
            suite: None,
            hs_write: None,
            hs_read: None,
            app_write: None,
            app_read: None,
            peer_tp: None,
            negotiated_alpn: None,
            server_finished: false,
            handshake_secret: Vec::new(),
            client_hs_secret: Vec::new(),
            server_hs_secret: Vec::new(),
            leaf: None,
            verified: false,
            crypto_pending: hello,
        };
        proof {
            assert(r@ =~= opened(
                r.server_name@,
                strings_view(alpn@),
                skip_cert_verify,
                root_certs(roots),
                now,
                client_params(tp@, scid@),
                client_priv@,
                random@,
            ));
        }
        r
    }

    /// Open a handshake with a fresh key share and random: the `ClientHello` is ready to
    /// be sent.
    pub fn new(
        server_name: String,
        alpn: &Vec<String>,
        skip_cert_verify: bool,
        roots: RootStore,
        now: i64,
        tp: &TransportParameters,
        scid: &[u8],
    ) -> (r: Self)
        ensures
            exists|seed: Seq<u8>|
                r@ == opened(
                    server_name@,
                    strings_view(alpn@),
                    skip_cert_verify,
                    root_certs(roots),
                    now,
                    client_params(tp@, scid@),
                    (#[trigger] seeded_pair(seed)).0,
                    seeded_pair(seed).1,
                ),
            r@.wf(),
    {
        let mut bytes = repeat(0, 64);
        fill_random(bytes.as_mut_slice());
        let seed = seed_from(&bytes);
        let (client_priv, random) = draw_pair(&seed);
        let r = Self::with_entropy(
            server_name,
            alpn,
            skip_cert_verify,
            roots,
            now,
            tp,
            scid,
            client_priv,
            &random,
        );
        proof {
            let pair = seeded_pair(seed@);
            assert(pair.0 == client_priv@ && pair.1 == random@);
        }
        r
    }

    /// Whether the handshake is over.
    pub fn is_complete(&self) -> (r: bool)
        ensures
            r == self@.complete(),
    {
        self.server_finished && self.app_write.is_some()
    }

    /// The message that opened the handshake.
    pub fn client_hello(&self) -> (r: &Vec<u8>)
        ensures
            r@ == self@.client_hello,
    {
        &self.client_hello
    }

    /// The key for Handshake packets to the server.
    pub fn hs_write(&self) -> (r: &Option<PacketKey>)
        ensures
            opt_key(*r) == self@.hs_write,
    {
        &self.hs_write
    }

    /// The key for Handshake packets from the server.
    pub fn hs_read(&self) -> (r: &Option<PacketKey>)
        ensures
            opt_key(*r) == self@.hs_read,
    {
        &self.hs_read
    }

    /// The key for application packets to the server.
    pub fn app_write(&self) -> (r: &Option<PacketKey>)
        ensures
            opt_key(*r) == self@.app_write,
    {
        &self.app_write
    }

    /// The key for application packets from the server.
    pub fn app_read(&self) -> (r: &Option<PacketKey>)
        ensures
            opt_key(*r) == self@.app_read,
    {
        &self.app_read
    }

    /// Transport parameters of the server.
    pub fn peer_tp(&self) -> (r: &Option<TransportParameters>)
        ensures
            opt_params(*r) == self@.peer_tp,
    {
        &self.peer_tp
    }

    /// Protocol that the server chose.
    pub fn negotiated_alpn(&self) -> (r: &Option<Vec<u8>>)
        ensures
            opt_bytes(*r) == self@.alpn,
    {
        &self.negotiated_alpn
    }

    /// Start over after a Retry: the same `ClientHello` goes out again.
    pub fn reset_after_retry(&mut self)
        ensures
            final(self)@ == old(self)@.restarted(),
    {
        self.suite = None;
        self.hs_write = None;
        self.hs_read = None;
        self.app_write = None;
        self.app_read = None;
        self.peer_tp = None;
        self.negotiated_alpn = None;
        self.server_finished = false;
        self.handshake_secret = Vec::new();
        self.client_hs_secret = Vec::new();
        self.server_hs_secret = Vec::new();
        self.leaf = None;
        self.verified = false;
        self.crypto_pending = Vec::new();
        self.transcript = self.client_hello.clone();
        proof {
            assert(self@ =~= old(self)@.restarted());
        }
    }

    /// Take the messages waiting to be sent.
    pub fn take_crypto_pending(&mut self) -> (r: Vec<u8>)
        ensures
            r@ == old(self)@.pending,
            final(self)@ == (HandshakeView { pending: Seq::empty(), ..old(self)@ }),
    {
        let mut r: Vec<u8> = Vec::new();
        core::mem::swap(&mut r, &mut self.crypto_pending);
        proof {
            assert(self@ =~= (HandshakeView { pending: Seq::empty(), ..old(self)@ }));
        }
        r
    }

    fn transcript_hash(&self) -> (r: Vec<u8>)
        ensures
            r@ == self@.transcript_hash(),
            r@.len() == self@.hash().size(),
    {
        digest(hash_alg(self.suite_hash()), &self.transcript)
    }

    fn suite_hash(&self) -> (h: SuiteHash)
        ensures
            h == self@.hash(),
    {
        match self.suite {
            Some(suite) => if suite == SUITE_AES_256 {
                SuiteHash::Sha384
            } else {
                SuiteHash::Sha256
            },
            None => SuiteHash::Sha256,
        }
    }
}

pub(crate) fn seed_from(bytes: &Vec<u8>) -> (seed: [u8; 44])
    requires
        bytes@.len() == 64,
    ensures
        seed@ == bytes@.take(44),
{
    let mut seed = [0u8; 44];
    let mut i: usize = 0;
    while i < 44
        invariant
            i <= 44,
            bytes@.len() == 64,
            forall|j: int| 0 <= j < i ==> seed@[j] == bytes@[j],
        decreases 44 - i,
    {
        seed[i] = bytes[i];
        i = i + 1;
    }
    proof {
        assert(seed@ =~= bytes@.take(44));
    }
    seed
}

fn derive(h: SuiteHash, secret: &[u8], label: &[u8], messages_hash: &[u8]) -> (r: Vec<u8>)
    requires
        label@.len() <= 249,
        messages_hash@.len() <= 255,
    ensures
        r@ == derived(h, secret@, label@, messages_hash@),
        r@.len() == h.size(),
{
    let len: usize = h.len();
    expand_label(h, secret, label, messages_hash, len)
}

fn hash_alg(h: SuiteHash) -> (a: HashAlg)
    ensures
        a == h.alg(),
{
    match h {
        SuiteHash::Sha256 => HashAlg::Sha256,
        SuiteHash::Sha384 => HashAlg::Sha384,
    }
}

/// The hash of nothing, under which a secret becomes the next one's salt.
fn next_salt(h: SuiteHash, secret: &[u8]) -> (r: Vec<u8>)
    ensures
        r@ == derived(h, secret@, "derived".spec_bytes(), digest_of(h.alg(), Seq::empty())),
{
    let nothing: Vec<u8> = Vec::new();
    let empty_hash = digest(hash_alg(h), &nothing);
    proof {
        assert(nothing@ =~= Seq::empty());
        lemma_labels();
    }
    derive(h, secret, "derived".as_bytes(), &empty_hash)
}

proof fn lemma_labels()
    ensures
        "derived".spec_bytes().len() <= 249,
        "finished".spec_bytes().len() <= 249,
        "c hs traffic".spec_bytes().len() <= 249,
        "s hs traffic".spec_bytes().len() <= 249,
        "c ap traffic".spec_bytes().len() <= 249,
        "s ap traffic".spec_bytes().len() <= 249,
{
    broadcast use vstd::utf8::is_ascii_chars_encode_utf8;

    reveal_strlit("derived");
    reveal_strlit("finished");
    reveal_strlit("c hs traffic");
    reveal_strlit("s hs traffic");
    reveal_strlit("c ap traffic");
    reveal_strlit("s ap traffic");
    assert(vstd::utf8::is_ascii_chars("derived"@));
    assert(vstd::utf8::is_ascii_chars("finished"@));
    assert(vstd::utf8::is_ascii_chars("c hs traffic"@));
    assert(vstd::utf8::is_ascii_chars("s hs traffic"@));
    assert(vstd::utf8::is_ascii_chars("c ap traffic"@));
    assert(vstd::utf8::is_ascii_chars("s ap traffic"@));
}

impl Tls13Client {
    fn on_server_hello(&mut self, body: &[u8]) -> (r: Result<()>)
        requires
            old(self)@.wf(),
        ensures
            final(self)@ == old(self)@.on_server_hello(body@).0,
            match old(self)@.on_server_hello(body@).1 {
                Ok(_) => r is Ok,
                Err(f) => r is Err && r->Err_0@ == f,
            },
            final(self)@.wf(),
    {
        if self.suite.is_some() {
            return Err(protocol("duplicate ServerHello"));
        }
        let (suite, share) = match parse_hello(body) {
            Ok(h) => h,
            Err(e) => return Err(e),
        };
        let h = SuiteHash::for_suite(suite);
        let size: usize = suite_hash_len(suite);
        let shared = x25519(&self.client_priv, &share);
        let none = repeat(0, size);
        let early = mac(hash_alg(h), &none, &none);
        let salt = next_salt(h, &early);
        let secret = mac(hash_alg(h), &salt, &shared);
        let ch_sh = digest(hash_alg(h), &self.transcript);
        proof {
            assert(none@ =~= zeros(h.size()));
            lemma_labels();
        }
        let client = derive(h, &secret, "c hs traffic".as_bytes(), &ch_sh);
        let server = derive(h, &secret, "s hs traffic".as_bytes(), &ch_sh);
        self.suite = Some(suite);
        self.hs_write = Some(PacketKey::Traffic { suite, secret: client.clone() });
        self.hs_read = Some(PacketKey::Traffic { suite, secret: server.clone() });
        self.handshake_secret = secret;
        self.client_hs_secret = client;
        self.server_hs_secret = server;
        proof {
            assert(self@ =~= old(self)@.keyed(suite, share@));
        }
        Ok(())
    }

    fn on_encrypted_extensions(&mut self, body: &[u8]) -> (r: Result<()>)
        requires
            old(self)@.wf(),
        ensures
            final(self)@ == old(self)@.on_encrypted_extensions(body@).0,
            match old(self)@.on_encrypted_extensions(body@).1 {
                Ok(_) => r is Ok,
                Err(f) => r is Err && r->Err_0@ == f,
            },
            final(self)@.wf(),
    {
        if self.peer_tp.is_some() {
            return Err(protocol("duplicate EncryptedExtensions"));
        }
        let exts = match parse_extensions(body, 0) {
            Ok(e) => e,
            Err(e) => return Err(e),
        };
        let ghost all = exts_view(exts@);
        let ghost whole = self@.with_extensions(all, 0);
        let mut i: usize = 0;
        while i < exts.len()
            invariant
                i <= exts@.len(),
                all == exts_view(exts@),
                self@.wf(),
                whole == self@.with_extensions(all, i as int),
                whole == old(self)@.on_encrypted_extensions(body@),
            decreases exts@.len() - i,
        {
            let ghost before = self@;
            proof {
                assert(all[i as int] == (exts@[i as int].0, exts@[i as int].1@));
            }
            if exts[i].0 == EXT_ALPN {
                match parse_alpn(&exts[i].1) {
                    Ok(name) => {
                        self.negotiated_alpn = name;
                        proof {
                            assert(self@ =~= (HandshakeView { alpn: opt_bytes(name), ..before }));
                        }
                    },
                    Err(e) => return Err(e),
                }
            } else if exts[i].0 == EXT_QUIC_TP {
                match parse_tp(&exts[i].1) {
                    Ok(tp) => {
                        self.peer_tp = Some(tp);
                        proof {
                            assert(self@ =~= (HandshakeView { peer_tp: Some(tp@), ..before }));
                        }
                    },
                    Err(e) => return Err(e),
                }
            }
            i = i + 1;
        }
        if self.peer_tp.is_none() {
            return Err(protocol("EncryptedExtensions missing quic_transport_parameters"));
        }
        Ok(())
    }

    fn on_certificate(&mut self, body: &[u8]) -> (r: Result<()>)
        requires
            old(self)@.wf(),
        ensures
            final(self)@ == old(self)@.on_certificate(body@).0,
            match old(self)@.on_certificate(body@).1 {
                Ok(_) => r is Ok,
                Err(f) => r is Err && r->Err_0@ == f,
            },
            final(self)@.wf(),
    {
        if self.leaf.is_some() {
            return Err(protocol("duplicate Certificate"));
        }
        let chain = match parse_chain(body) {
            Ok(c) => c,
            Err(e) => return Err(e),
        };
        proof {
            assert(lists_view(chain@)[0] == chain@[0]@);
        }
        let leaf = match read_leaf(&chain[0]) {
            Ok(l) => l,
            Err(m) => return Err(QuicError::Certificate(m)),
        };
        if !self.skip_cert_verify {
            match check_chain(&self.roots, &chain, self.now) {
                Ok(_) => {},
                Err(m) => return Err(QuicError::Certificate(m)),
            }
            if !hostname_matches(self.server_name.as_str(), &leaf.dns_names, &leaf.ip_names) {
                let mut m = owned("server name '");
                m.append(self.server_name.as_str());
                m.append("' does not match the certificate");
                proof {
                    assert(m@ =~= "server name '"@ + self@.server_name
                        + "' does not match the certificate"@);
                }
                return Err(QuicError::Certificate(m));
            }
        }
        self.leaf = Some(leaf);
        proof {
            assert(self@ =~= (HandshakeView { leaf: Some(leaf@), ..old(self)@ }));
        }
        Ok(())
    }

    fn on_certificate_verify(&mut self, body: &[u8], before: &[u8]) -> (r: Result<()>)
        requires
            old(self)@.wf(),
        ensures
            final(self)@ == old(self)@.on_certificate_verify(body@, before@).0,
            match old(self)@.on_certificate_verify(body@, before@).1 {
                Ok(_) => r is Ok,
                Err(f) => r is Err && r->Err_0@ == f,
            },
            final(self)@.wf(),
    {
        let leaf = match &self.leaf {
            Some(l) => l,
            None => return Err(protocol("CertificateVerify before Certificate")),
        };
        if body.len() < 4 {
            return Err(protocol("truncated CertificateVerify"));
        }
        let scheme: u16 = read_u16(body, 0);
        let sig_len: usize = read_u16(body, 2) as usize;
        if body.len() - 4 < sig_len {
            return Err(protocol("truncated CertificateVerify signature"));
        }
        let signature = slice_subrange(body, 4, 4 + sig_len);
        let content = cert_verify_content(before, false);
        if !verify_signature(&leaf.key, scheme, &content, signature) {
            return Err(
                QuicError::Certificate(owned("CertificateVerify signature verification failed")),
            );
        }
        self.verified = true;
        proof {
            assert(self@ =~= (HandshakeView { verified: true, ..old(self)@ }));
        }
        Ok(())
    }

    fn verify_data(&self, secret: &[u8], transcript_hash: &[u8]) -> (r: Vec<u8>)
        ensures
            r@ == self@.verify_data(secret@, transcript_hash@),
            r@.len() == self@.hash().size(),
    {
        let h = self.suite_hash();
        let nothing: Vec<u8> = Vec::new();
        let len: usize = h.len();
        proof {
            assert(nothing@ =~= Seq::empty());
            lemma_labels();
        }
        let key = expand_label(h, secret, "finished".as_bytes(), &nothing, len);
        mac(hash_alg(h), &key, transcript_hash)
    }

    fn on_server_finished(&mut self, body: &[u8], before: &[u8]) -> (r: Result<()>)
        requires
            old(self)@.wf(),
        ensures
            final(self)@ == old(self)@.on_server_finished(body@, before@).0,
            match old(self)@.on_server_finished(body@, before@).1 {
                Ok(_) => r is Ok,
                Err(f) => r is Err && r->Err_0@ == f,
            },
            final(self)@.wf(),
    {
        if self.server_finished {
            return Err(protocol("duplicate Finished"));
        }
        let h = self.suite_hash();
        let size: usize = h.len();
        if body.len() != size {
            return Err(protocol("invalid Finished length"));
        }
        let expected = self.verify_data(&self.server_hs_secret, before);
        if !ct_eq(&expected, body) {
            return Err(protocol("server Finished verification failed"));
        }
        if self.leaf.is_none() {
            return Err(QuicError::Certificate(owned("server did not send a Certificate message")));
        }
        if !self.verified {
            return Err(
                QuicError::Certificate(owned("server did not send a CertificateVerify message")),
            );
        }
        let none = repeat(0, size);
        let salt = next_salt(h, &self.handshake_secret);
        let master = mac(hash_alg(h), &salt, &none);
        let up_to_fin = self.transcript_hash();
        proof {
            assert(none@ =~= zeros(h.size()));
            lemma_labels();
        }
        let client = derive(h, &master, "c ap traffic".as_bytes(), &up_to_fin);
        let server = derive(h, &master, "s ap traffic".as_bytes(), &up_to_fin);
        let verify = self.verify_data(&self.client_hs_secret, &up_to_fin);
        let msg = hs_message(HS_FINISHED, &verify);
        self.server_finished = true;
        if let Some(suite) = self.suite {
            self.app_write = Some(PacketKey::Traffic { suite, secret: client });
            self.app_read = Some(PacketKey::Traffic { suite, secret: server });
        }
        extend(&mut self.crypto_pending, &msg);
        proof {
            assert(self@ =~= old(self)@.finished());
        }
        Ok(())
    }

    /// One handshake message.
    fn on_message(&mut self, t: u8, body: &[u8]) -> (r: Result<()>)
        requires
            old(self)@.wf(),
        ensures
            final(self)@ == old(self)@.on_message(t, body@).0,
            match old(self)@.on_message(t, body@).1 {
                Ok(_) => r is Ok,
                Err(f) => r is Err && r->Err_0@ == f,
            },
            final(self)@.wf(),
    {
        if t == HS_NEW_SESSION_TICKET && self.server_finished {
            return Ok(());
        }
        let before = self.transcript_hash();
        let msg = hs_message(t, body);
        extend(&mut self.transcript, &msg);
        proof {
            assert(self@ =~= (HandshakeView {
                transcript: old(self)@.transcript + hs_bytes(t, body@),
                ..old(self)@
            }));
        }
        if t == HS_FINISHED {
            self.on_server_finished(body, &before)
        } else if t == HS_SERVER_HELLO {
            self.on_server_hello(body)
        } else if t == HS_ENCRYPTED_EXTENSIONS {
            self.on_encrypted_extensions(body)
        } else if t == HS_CERTIFICATE {
            self.on_certificate(body)
        } else if t == HS_CERTIFICATE_VERIFY {
            self.on_certificate_verify(body, &before)
        } else if t == HS_CLIENT_HELLO {
            Err(protocol("unexpected ClientHello from server"))
        } else {
            let mut m = owned("unexpected handshake message type ");
            push_decimal(&mut m, t as u64);
            Err(QuicError::Protocol(m))
        }
    }

    /// Consume bytes of the CRYPTO stream: every whole message at the front of `buf`, up
    /// to the server's Finished. The number of bytes used; the rest is to be offered again.
    pub fn consume_crypto(&mut self, buf: &[u8]) -> (r: Result<usize>)
        requires
            old(self)@.wf(),
        ensures
            final(self)@ == old(self)@.consumed(buf@, 0).0,
            match old(self)@.consumed(buf@, 0).1 {
                Ok(n) => r is Ok && r->Ok_0 == n && n <= buf@.len(),
                Err(f) => r is Err && r->Err_0@ == f,
            },
            final(self)@.wf(),
    {
        let mut pos: usize = 0;
        let ghost whole = self@.consumed(buf@, 0);
        while pos < buf.len()
            invariant
                pos <= buf@.len(),
                self@.wf(),
                whole == self@.consumed(buf@, pos as int),
                whole == old(self)@.consumed(buf@, 0),
            decreases buf@.len() - pos,
        {
            let (t, body) = match take_hs_message(buf, &mut pos) {
                Some(m) => m,
                None => return Ok(pos),
            };
            match self.on_message(t, body) {
                Ok(_) => {},
                Err(e) => return Err(e),
            }
            if t == HS_FINISHED {
                return Ok(pos);
            }
        }
        Ok(pos)
    }
}

/// Whether a signature under the key of the accepted certificate covers the part `signed`
/// of the transcript.
pub open spec fn possession(
    s: HandshakeView,
    signed: Seq<u8>,
    alg: HashAlg,
    scheme: u16,
    signature: Seq<u8>,
) -> bool {
    &&& s.leaf is Some
    &&& signed.len() <= s.transcript.len()
    &&& signed == s.transcript.take(signed.len() as int)
    &&& signature_valid(
        s.leaf->0.key,
        scheme,
        verify_content(digest_of(alg, signed), false),
        signature,
    )
}

/// Whether the handshake takes the server as verified only where it proved that it holds
/// the key of its certificate, and as finished only where it is verified.
pub open spec fn proved(s: HandshakeView) -> bool {
    &&& s.server_finished ==> s.verified
    &&& s.verified ==> exists|signed: Seq<u8>, alg: HashAlg, scheme: u16, signature: Seq<u8>|
        #[trigger]
        possession(s, signed, alg, scheme, signature)
}

proof fn lemma_possession_kept(s: HandshakeView, t: HandshakeView, more: Seq<u8>)
    requires
        proved(s),
        t.transcript == s.transcript + more,
        t.leaf == s.leaf,
        t.verified == s.verified,
        t.server_finished ==> s.server_finished || s.verified,
    ensures
        proved(t),
{
    if s.verified {
        let (signed, alg, scheme, signature) = choose|
            signed: Seq<u8>,
            alg: HashAlg,
            scheme: u16,
            signature: Seq<u8>,
        | #[trigger] possession(s, signed, alg, scheme, signature);
        assert(t.transcript.take(signed.len() as int) =~= s.transcript.take(signed.len() as int));
        assert(possession(t, signed, alg, scheme, signature));
    }
}

proof fn lemma_extensions_keep(s: HandshakeView, exts: Seq<(u16, Seq<u8>)>, i: int)
    ensures
        ({
            let t = s.with_extensions(exts, i).0;
            &&& t.transcript == s.transcript
            &&& t.leaf == s.leaf
            &&& t.verified == s.verified
            &&& t.server_finished == s.server_finished
        }),
    decreases exts.len() - i,
{
    if 0 <= i < exts.len() {
        if exts[i].0 == EXT_ALPN {
            if alpn_of(exts[i].1) is Ok {
                lemma_extensions_keep(
                    HandshakeView { alpn: alpn_of(exts[i].1)->Ok_0, ..s },
                    exts,
                    i + 1,
                );
            }
        } else if exts[i].0 == EXT_QUIC_TP {
            if params_of(exts[i].1) is Ok {
                lemma_extensions_keep(
                    HandshakeView { peer_tp: Some(params_of(exts[i].1)->Ok_0), ..s },
                    exts,
                    i + 1,
                );
            }
        } else {
            lemma_extensions_keep(s, exts, i + 1);
        }
    }
}

proof fn lemma_proved_message(s: HandshakeView, t: u8, body: Seq<u8>)
    requires
        proved(s),
    ensures
        proved(s.on_message(t, body).0),
{
    let msg = hs_bytes(t, body);
    let next = HandshakeView { transcript: s.transcript + msg, ..s };
    let after = s.on_message(t, body).0;
    if t == HS_CERTIFICATE_VERIFY {
        if after.verified && !s.verified {
            let signature = body.subrange(4, 4 + u16_at(body, 2) as int);
            assert(after.transcript.take(s.transcript.len() as int) =~= s.transcript);
            assert(possession(
                after,
                s.transcript,
                s.hash().alg(),
                u16_at(body, 0) as u16,
                signature,
            ));
        } else {
            lemma_possession_kept(s, after, msg);
        }
    } else if t == HS_ENCRYPTED_EXTENSIONS {
        if exts_at(body, 0) is Ok {
            lemma_extensions_keep(next, exts_at(body, 0)->Ok_0, 0);
        }
        lemma_possession_kept(s, after, msg);
    } else if t == HS_CERTIFICATE && s.leaf is None {
        assert(!s.verified);
    } else if t != HS_NEW_SESSION_TICKET || !s.server_finished {
        lemma_possession_kept(s, after, msg);
    }
}

/// A handshake is over only with a server that proved to hold the key of its certificate:
/// it opens without a proof, and no bytes of the CRYPTO stream bring one but a
/// `CertificateVerify` whose signature covers the transcript before it.
pub proof fn lemma_possession_proved(
    server_name: Seq<char>,
    alpn: Seq<Seq<char>>,
    skip_cert_verify: bool,
    roots: Seq<Seq<u8>>,
    now: i64,
    params: Seq<u8>,
    private: Seq<u8>,
    random: Seq<u8>,
    s: HandshakeView,
    buf: Seq<u8>,
    pos: int,
)
    ensures
        proved(
            opened(server_name, alpn, skip_cert_verify, roots, now, params, private, random),
        ),
        proved(s.restarted()),
        proved(s) ==> proved(s.consumed(buf, pos).0),
        proved(s) && s.complete() ==> exists|
            signed: Seq<u8>,
            alg: HashAlg,
            scheme: u16,
            signature: Seq<u8>,
        | #[trigger] possession(s, signed, alg, scheme, signature),
    decreases buf.len() - pos,
{
    if proved(s) && 0 <= pos < buf.len() {
        match hs_at(buf.skip(pos)) {
            None => {},
            Some((t, body)) => {
                lemma_proved_message(s, t, body);
                let (next, r) = s.on_message(t, body);
                if r is Ok && t != HS_FINISHED {
                    lemma_possession_proved(
                        server_name,
                        alpn,
                        skip_cert_verify,
                        roots,
                        now,
                        params,
                        private,
                        random,
                        next,
                        buf,
                        pos + 4 + body.len(),
                    );
                }
            },
        }
    }
}

proof fn lemma_extensions_quiet(s: HandshakeView, exts: Seq<(u16, Seq<u8>)>, i: int)
    ensures
        ({
            let t = s.with_extensions(exts, i).0;
            &&& t.pending == s.pending
            &&& t.server_finished == s.server_finished
            &&& t.suite == s.suite
            &&& t.hs_write == s.hs_write
            &&& t.hs_read == s.hs_read
        }),
    decreases exts.len() - i,
{
    if 0 <= i < exts.len() {
        if exts[i].0 == EXT_ALPN {
            if alpn_of(exts[i].1) is Ok {
                lemma_extensions_quiet(
                    HandshakeView { alpn: alpn_of(exts[i].1)->Ok_0, ..s },
                    exts,
                    i + 1,
                );
            }
        } else if exts[i].0 == EXT_QUIC_TP {
            if params_of(exts[i].1) is Ok {
                lemma_extensions_quiet(
                    HandshakeView { peer_tp: Some(params_of(exts[i].1)->Ok_0), ..s },
                    exts,
                    i + 1,
                );
            }
        } else {
            lemma_extensions_quiet(s, exts, i + 1);
        }
    }
}

/// The keys of the Handshake space are chosen once and stay, and nothing but the server's
/// Finished makes the client answer.
pub proof fn lemma_quiet_until_finished(s: HandshakeView, buf: Seq<u8>, pos: int)
    ensures
        ({
            let (t, r) = s.consumed(buf, pos);
            &&& s.suite is Some ==> t.hs_write == s.hs_write && t.hs_read == s.hs_read
            &&& s.suite is Some ==> t.suite is Some
            &&& s.server_finished ==> t.server_finished
            &&& r is Ok && !t.server_finished ==> t.pending == s.pending
        }),
    decreases buf.len() - pos,
{
    if 0 <= pos < buf.len() {
        match hs_at(buf.skip(pos)) {
            None => {},
            Some((t, body)) => {
                let msg = HandshakeView { transcript: s.transcript + hs_bytes(t, body), ..s };
                if t == HS_ENCRYPTED_EXTENSIONS && exts_at(body, 0) is Ok {
                    lemma_extensions_quiet(msg, exts_at(body, 0)->Ok_0, 0);
                }
                let (next, r) = s.on_message(t, body);
                if r is Ok && t != HS_FINISHED {
                    lemma_quiet_until_finished(next, buf, pos + 4 + body.len());
                }
            },
        }
    }
}

/// Reading handshake messages keeps the keys and the suite together.
pub proof fn lemma_keys_chosen(s: HandshakeView, buf: Seq<u8>, pos: int)
    requires
        s.suite is None ==> s.hs_write is None && s.hs_read is None,
    ensures
        ({
            let t = s.consumed(buf, pos).0;
            t.suite is None ==> t.hs_write is None && t.hs_read is None
        }),
    decreases buf.len() - pos,
{
    if 0 <= pos < buf.len() {
        match hs_at(buf.skip(pos)) {
            None => {},
            Some((t, body)) => {
                let msg = HandshakeView { transcript: s.transcript + hs_bytes(t, body), ..s };
                if t == HS_ENCRYPTED_EXTENSIONS && exts_at(body, 0) is Ok {
                    lemma_extensions_quiet(msg, exts_at(body, 0)->Ok_0, 0);
                }
                let (next, r) = s.on_message(t, body);
                if r is Ok && t != HS_FINISHED {
                    lemma_keys_chosen(next, buf, pos + 4 + body.len());
                }
            },
        }
    }
}

/// Reading handshake messages stops within the bytes.
pub proof fn lemma_consumed_within(s: HandshakeView, buf: Seq<u8>, pos: int)
    requires
        0 <= pos <= buf.len(),
    ensures
        s.consumed(buf, pos).1 matches Ok(n) ==> pos <= n <= buf.len(),
    decreases buf.len() - pos,
{
    if pos < buf.len() {
        if let Some((t, body)) = hs_at(buf.skip(pos)) {
            let (next, r) = s.on_message(t, body);
            if r is Ok && t != HS_FINISHED {
                lemma_consumed_within(next, buf, pos + 4 + body.len());
            }
        }
    }
}

proof fn lemma_consumed_from(s: HandshakeView, buf: Seq<u8>, from: int, pos: int)
    requires
        0 <= from <= buf.len(),
        0 <= pos,
    ensures
        s.consumed(buf, from + pos).0 == s.consumed(buf.skip(from), pos).0,
        match s.consumed(buf.skip(from), pos).1 {
            Ok(n) => s.consumed(buf, from + pos).1 == Ok::<int, QuicFault>(from + n),
            Err(f) => s.consumed(buf, from + pos).1 == Err::<int, QuicFault>(f),
        },
    decreases buf.len() - from - pos,
{
    if from + pos < buf.len() {
        assert(buf.skip(from).skip(pos) =~= buf.skip(from + pos));
        match hs_at(buf.skip(from + pos)) {
            None => {},
            Some((t, body)) => {
                let (next, r) = s.on_message(t, body);
                if r is Ok && t != HS_FINISHED {
                    lemma_consumed_from(next, buf, from, pos + 4 + body.len());
                }
            },
        }
    }
}

proof fn lemma_consumed_prefix(s: HandshakeView, a: Seq<u8>, b: Seq<u8>, pos: int)
    requires
        0 <= pos <= a.len(),
        s.consumed(a, pos).1 is Ok,
        !s.consumed(a, pos).0.server_finished,
    ensures
        pos <= s.consumed(a, pos).1->Ok_0 <= a.len(),
        s.consumed(a, pos).0.consumed(a + b, s.consumed(a, pos).1->Ok_0) == s.consumed(a + b, pos),
    decreases a.len() - pos,
{
    if pos < a.len() {
        match hs_at(a.skip(pos)) {
            None => {},
            Some((t, body)) => {
                let x = a.skip(pos);
                let y = (a + b).skip(pos);
                assert(y.subrange(1, 4) =~= x.subrange(1, 4));
                let n = be_value(x.subrange(1, 4)) as int;
                assert(y.subrange(4, 4 + n) =~= x.subrange(4, 4 + n));
                assert(hs_at(y) == hs_at(x));
                let next = s.on_message(t, body).0;
                if t != HS_FINISHED {
                    lemma_consumed_prefix(next, a, b, pos + 4 + body.len());
                }
            },
        }
    }
}

/// Handshake messages are read alike however the bytes are split, up to the server's
/// Finished: reading `a` and then, with what it left, `b` gives what reading both at once
/// gives.
pub proof fn lemma_consumed_split(s: HandshakeView, a: Seq<u8>, b: Seq<u8>)
    requires
        s.consumed(a, 0).1 is Ok,
        !s.consumed(a, 0).0.server_finished,
    ensures
        ({
            let (t, r) = s.consumed(a, 0);
            let n = r->Ok_0;
            let (u, q) = t.consumed((a + b).skip(n), 0);
            &&& 0 <= n <= a.len()
            &&& s.consumed(a + b, 0).0 == u
            &&& match q {
                Ok(m) => s.consumed(a + b, 0).1 == Ok::<int, QuicFault>(n + m),
                Err(f) => s.consumed(a + b, 0).1 == Err::<int, QuicFault>(f),
            }
        }),
{
    lemma_consumed_prefix(s, a, b, 0);
    let (t, r) = s.consumed(a, 0);
    lemma_consumed_from(t, a + b, r->Ok_0, 0);
}

} // verus!
