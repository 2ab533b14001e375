//! Handshake and extension codecs, and signature verification.
//!
//! Every function is a transform over bytes: no I/O, no buffering policy.

use super::{protocol, unsupported, Result, Tls13Error, TlsFault};
use crate::crypto::{
    digest, digest_of, ecdsa_valid, ecdsa_verify, ed25519_valid, ed25519_verify, pss_valid, pss_verify,
    EcCurve, HashAlg,
};
use crate::der::{is_pair, pair_fits};
use crate::text::{hex_padded, owned, push_hex_padded};
use crate::wire::{
    array32, array64, be_bytes, be_value, copy_range, extend, lemma_be_round_trip,
    lemma_be_value_bytes, lemma_pow256, matches_at, push_be, read_be, repeat,
};
use vstd::prelude::*;
use vstd::slice::slice_subrange;
use vstd::string::*;

verus! {

// ---------------------------------------------------------------------------
// Handshake message types (RFC 8446 section 4)
// ---------------------------------------------------------------------------

/// `client_hello`.
pub const HS_CLIENT_HELLO: u8 = 1;

/// `server_hello`.
pub const HS_SERVER_HELLO: u8 = 2;

/// `new_session_ticket`.
pub const HS_NEW_SESSION_TICKET: u8 = 4;

/// `encrypted_extensions`.
pub const HS_ENCRYPTED_EXTENSIONS: u8 = 8;

/// `certificate`.
pub const HS_CERTIFICATE: u8 = 11;

/// `certificate_verify`.
pub const HS_CERTIFICATE_VERIFY: u8 = 15;

/// `finished`.
pub const HS_FINISHED: u8 = 20;

/// `key_update`.
pub const HS_KEY_UPDATE: u8 = 24;

// ---------------------------------------------------------------------------
// Extension types
// ---------------------------------------------------------------------------

/// `server_name`.
pub const EXT_SERVER_NAME: u16 = 0x0000;

/// `status_request`.
pub const EXT_STATUS_REQUEST: u16 = 0x0005;

/// `supported_groups`.
pub const EXT_SUPPORTED_GROUPS: u16 = 0x000a;

/// `ec_point_formats`.
pub const EXT_EC_POINT_FORMATS: u16 = 0x000b;

/// `signature_algorithms`.
pub const EXT_SIGNATURE_ALGORITHMS: u16 = 0x000d;

/// `application_layer_protocol_negotiation`.
pub const EXT_ALPN: u16 = 0x0010;

/// `signed_certificate_timestamp`.
pub const EXT_SIGNED_CERTIFICATE_TIMESTAMP: u16 = 0x0012;

/// `padding`.
pub const EXT_PADDING: u16 = 0x0015;

/// `extended_master_secret`.
pub const EXT_EXTENDED_MASTER_SECRET: u16 = 0x0017;

/// `compress_certificate`.
pub const EXT_COMPRESS_CERTIFICATE: u16 = 0x001b;

/// `session_ticket`.
pub const EXT_SESSION_TICKET: u16 = 0x0023;

/// `supported_versions`.
pub const EXT_SUPPORTED_VERSIONS: u16 = 0x002b;

/// `psk_key_exchange_modes`.
pub const EXT_PSK_KEY_EXCHANGE_MODES: u16 = 0x002d;

/// `key_share`.
pub const EXT_KEY_SHARE: u16 = 0x0033;

/// `application_settings` of Chromium.
pub const EXT_APPLICATION_SETTINGS: u16 = 0x4469;

/// `renegotiation_info` (RFC 5746).
pub const EXT_RENEGOTIATION_INFO: u16 = 0xff01;

/// The `compressed_certificate` certificate-entry extension (RFC 8879 section 4).
pub const CERT_EXT_COMPRESSED_CERTIFICATE: u16 = 0x001b;

// ---------------------------------------------------------------------------
// Named groups, signature schemes, cipher suites
// ---------------------------------------------------------------------------

/// `x25519`.
pub const GROUP_X25519: u16 = 0x001d;

/// `rsa_pss_rsae_sha256`.
pub const SIG_RSA_PSS_SHA256: u16 = 0x0804;

/// `rsa_pss_rsae_sha384`.
pub const SIG_RSA_PSS_SHA384: u16 = 0x0805;

/// `ecdsa_secp256r1_sha256`.
pub const SIG_ECDSA_SECP256R1_SHA256: u16 = 0x0403;

/// `ecdsa_secp384r1_sha384`.
pub const SIG_ECDSA_SECP384R1_SHA384: u16 = 0x0503;

/// `ed25519`.
pub const SIG_ED25519: u16 = 0x0807;

/// The random of a `HelloRetryRequest` (RFC 8446 section 4.1.3).
pub const HRR_RANDOM: [u8; 32] = [
    0xcf, 0x21, 0xad, 0x74, 0xe5, 0x9a, 0x61, 0x11, 0xbe, 0x1d, 0x8c, 0x02, 0x1e, 0x65, 0xb8, 0x91,
    0xc2, 0xa2, 0x11, 0x16, 0x7a, 0xbb, 0x8c, 0x5e, 0x07, 0x9e, 0x09, 0xe2, 0xc8, 0xa8, 0x33, 0x9c,
];

/// Downgrade sentinel at the end of a `ServerHello` random.
pub const DOWNGRADE_TLS12: [u8; 8] = [0x44, 0x4f, 0x57, 0x4e, 0x47, 0x52, 0x44, 0x00];

/// `TLS_AES_128_GCM_SHA256`.
pub const SUITE_AES_128: u16 = 0x1301;

/// `TLS_AES_256_GCM_SHA384`.
pub const SUITE_AES_256: u16 = 0x1302;

/// `TLS_CHACHA20_POLY1305_SHA256`.
pub const SUITE_CHACHA: u16 = 0x1303;

pub open spec fn known_suite(suite: u16) -> bool {
    suite == SUITE_AES_128 || suite == SUITE_AES_256 || suite == SUITE_CHACHA
}

/// Whether `suite` is a cipher suite of TLS 1.3 with keys here.
pub fn is_supported_suite(suite: u16) -> (r: bool)
    ensures
        r == known_suite(suite),
{
    suite == SUITE_AES_128 || suite == SUITE_AES_256 || suite == SUITE_CHACHA
}

/// Hash length of a cipher suite.
pub fn suite_hash_len(suite: u16) -> (n: usize)
    ensures
        n == if suite == SUITE_AES_256 {
            48int
        } else {
            32
        },
{
    if suite == SUITE_AES_256 {
        48
    } else {
        32
    }
}

/// Traffic key length of a cipher suite.
pub fn suite_key_len(suite: u16) -> (n: usize)
    ensures
        n == if suite == SUITE_AES_128 {
            16int
        } else {
            32
        },
{
    if suite == SUITE_AES_128 {
        16
    } else {
        32
    }
}

// ---------------------------------------------------------------------------
// Handshake message framing
// ---------------------------------------------------------------------------

/// A handshake message: type, three length bytes, body.
pub open spec fn hs_bytes(msg_type: u8, body: Seq<u8>) -> Seq<u8> {
    seq![msg_type] + be_bytes(body.len(), 3) + body
}

/// The handshake message at the front of `buf`: its type and body.
pub open spec fn hs_at(buf: Seq<u8>) -> Option<(u8, Seq<u8>)> {
    if buf.len() < 4 || buf.len() < 4 + be_value(buf.subrange(1, 4)) {
        None
    } else {
        Some((buf[0], buf.subrange(4, 4 + be_value(buf.subrange(1, 4)) as int)))
    }
}

/// A framed message is read back whole, whatever follows it.
pub proof fn lemma_hs_round_trip(msg_type: u8, body: Seq<u8>, rest: Seq<u8>)
    requires
        body.len() < 0x100_0000,
    ensures
        hs_at(hs_bytes(msg_type, body) + rest) == Some((msg_type, body)),
        hs_bytes(msg_type, body).len() == 4 + body.len(),
{
    lemma_pow256();
    lemma_be_round_trip(body.len(), 3);
    let buf = hs_bytes(msg_type, body) + rest;
    assert(buf.subrange(1, 4) =~= be_bytes(body.len(), 3));
    assert(buf.subrange(4, 4 + body.len() as int) =~= body);
}

/// Frame a handshake message.
pub fn hs_message(msg_type: u8, body: &[u8]) -> (r: Vec<u8>)
    ensures
        r@ == hs_bytes(msg_type, body@),
{
    let mut out: Vec<u8> = Vec::new();
    out.push(msg_type);
    push_be(&mut out, body.len() as u64, 3);
    extend(&mut out, body);
    proof {
        assert(out@ =~= hs_bytes(msg_type, body@));
    }
    out
}

/// Decode one handshake message from the front of `buf`: type, body, bytes used.
/// `None` where the buffer does not hold a complete message yet.
pub fn read_hs_message(buf: &[u8]) -> (r: Option<(u8, &[u8], usize)>)
    ensures
        match hs_at(buf@) {
            None => r is None,
            Some((t, body)) => r is Some && r->Some_0.0 == t && r->Some_0.1@ == body && r->Some_0.2
                == 4 + body.len() && r->Some_0.2 <= buf@.len(),
        },
{
    if buf.len() < 4 {
        return None;
    }
    proof {
        lemma_pow256();
        lemma_be_value_bytes(buf@.subrange(1, 4));
    }
    let len: usize = read_be(buf, 1, 3) as usize;
    if buf.len() - 4 < len {
        return None;
    }
    Some((buf[0], slice_subrange(buf, 4, 4 + len), 4 + len))
}

/// Decode the next handshake message in `buf` at `*pos`, moving `*pos` behind it.
pub fn take_hs_message<'a>(buf: &'a [u8], pos: &mut usize) -> (r: Option<(u8, &'a [u8])>)
    requires
        *old(pos) <= buf@.len(),
    ensures
        match hs_at(buf@.skip(*old(pos) as int)) {
            None => r is None && *final(pos) == *old(pos),
            Some((t, body)) => r is Some && r->Some_0.0 == t && r->Some_0.1@ == body && *final(pos)
                == *old(pos) + 4 + body.len() && *final(pos) <= buf@.len(),
        },
{
    let rest = slice_subrange(buf, *pos, buf.len());
    proof {
        assert(rest@ =~= buf@.skip(*old(pos) as int));
    }
    match read_hs_message(rest) {
        Some((msg_type, body, consumed)) => {
            *pos = *pos + consumed;
            Some((msg_type, body))
        },
        None => None,
    }
}

// ---------------------------------------------------------------------------
// Extension framing
// ---------------------------------------------------------------------------

/// An extension: type, length, body.
pub open spec fn ext_bytes(ext_type: u16, data: Seq<u8>) -> Seq<u8> {
    be_bytes(ext_type as nat, 2) + be_bytes(data.len(), 2) + data
}

/// Frame one extension.
pub fn encode_extension(ext_type: u16, data: &[u8]) -> (r: Vec<u8>)
    ensures
        r@ == ext_bytes(ext_type, data@),
{
    let mut out: Vec<u8> = Vec::new();
    push_be(&mut out, ext_type as u64, 2);
    push_be(&mut out, data.len() as u64, 2);
    extend(&mut out, data);
    proof {
        assert(out@ =~= ext_bytes(ext_type, data@));
    }
    out
}

/// Extensions one after another.
pub open spec fn exts_bytes(exts: Seq<(u16, Seq<u8>)>) -> Seq<u8>
    decreases exts.len(),
{
    if exts.len() == 0 {
        Seq::empty()
    } else {
        ext_bytes(exts[0].0, exts[0].1) + exts_bytes(exts.skip(1))
    }
}

pub proof fn lemma_exts_bytes_push(exts: Seq<(u16, Seq<u8>)>, ext: (u16, Seq<u8>))
    ensures
        exts_bytes(exts.push(ext)) == exts_bytes(exts) + ext_bytes(ext.0, ext.1),
    decreases exts.len(),
{
    if exts.len() > 0 {
        lemma_exts_bytes_push(exts.skip(1), ext);
        assert(exts.push(ext).skip(1) =~= exts.skip(1).push(ext));
        assert(exts_bytes(exts.push(ext)) =~= exts_bytes(exts) + ext_bytes(ext.0, ext.1));
    } else {
        assert(exts.push(ext).skip(1) =~= Seq::empty());
        assert(exts.push(ext)[0] == ext);
        assert(exts_bytes(exts.push(ext).skip(1)) == Seq::<u8>::empty());
        assert(ext_bytes(ext.0, ext.1) + Seq::<u8>::empty() =~= ext_bytes(ext.0, ext.1));
        assert(exts_bytes(exts.push(ext)) == ext_bytes(ext.0, ext.1));
        assert(exts_bytes(exts) + ext_bytes(ext.0, ext.1) =~= ext_bytes(ext.0, ext.1));
    }
}

/// The number in the two bytes at `at`.
pub open spec fn u16_at(buf: Seq<u8>, at: int) -> nat {
    be_value(buf.subrange(at, at + 2))
}

/// The extensions of `buf[pos..end]`.
pub open spec fn exts_from(buf: Seq<u8>, pos: int, end: int) -> core::result::Result<
    Seq<(u16, Seq<u8>)>,
    TlsFault,
>
    decreases end - pos,
{
    if pos >= end {
        Ok(Seq::empty())
    } else if end - pos < 4 {
        Err(TlsFault::Protocol("truncated extension"@))
    } else if end - pos - 4 < u16_at(buf, pos + 2) {
        Err(TlsFault::Protocol("truncated extension body"@))
    } else {
        let next = pos + 4 + u16_at(buf, pos + 2);
        match exts_from(buf, next, end) {
            Ok(rest) => Ok(
                seq![(u16_at(buf, pos) as u16, buf.subrange(pos + 4, next))] + rest,
            ),
            Err(e) => Err(e),
        }
    }
}

/// Where the reading of `buf[pos..end]` stops.
pub open spec fn exts_stop(buf: Seq<u8>, pos: int, end: int) -> int
    decreases end - pos,
{
    if pos >= end || end - pos < 4 {
        pos
    } else if end - pos - 4 < u16_at(buf, pos + 2) {
        pos + 4
    } else {
        exts_stop(buf, pos + 4 + u16_at(buf, pos + 2), end)
    }
}

/// The extension block of `buf` at `pos`: a total length, then the extensions.
pub open spec fn ext_block(buf: Seq<u8>, pos: int) -> core::result::Result<
    Seq<(u16, Seq<u8>)>,
    TlsFault,
> {
    if buf.len() - pos < 2 || buf.len() - pos - 2 < u16_at(buf, pos) {
        Err(TlsFault::Protocol("truncated extension block"@))
    } else {
        exts_from(buf, pos + 2, pos + 2 + u16_at(buf, pos))
    }
}

/// Where the reading of the extension block at `pos` stops.
pub open spec fn ext_block_stop(buf: Seq<u8>, pos: int) -> int {
    if buf.len() - pos < 2 {
        pos
    } else if buf.len() - pos - 2 < u16_at(buf, pos) {
        pos + 2
    } else {
        exts_stop(buf, pos + 2, pos + 2 + u16_at(buf, pos))
    }
}

/// Parsed extensions as mathematical values.
pub open spec fn exts_view(v: Seq<(u16, Vec<u8>)>) -> Seq<(u16, Seq<u8>)> {
    Seq::new(v.len(), |i: int| (v[i].0, v[i].1@))
}

pub open spec fn exts_fit(exts: Seq<(u16, Seq<u8>)>) -> bool {
    forall|i: int| 0 <= i < exts.len() ==> (#[trigger] exts[i]).1.len() < 0x1_0000
}

proof fn lemma_exts_from(before: Seq<u8>, exts: Seq<(u16, Seq<u8>)>, rest: Seq<u8>)
    requires
        exts_fit(exts),
    ensures
        ({
            let buf = before + exts_bytes(exts) + rest;
            let end = before.len() + exts_bytes(exts).len();
            &&& exts_from(buf, before.len() as int, end as int) == Ok::<_, TlsFault>(exts)
            &&& exts_stop(buf, before.len() as int, end as int) == end
        }),
    decreases exts.len(),
{
    let buf = before + exts_bytes(exts) + rest;
    if exts.len() > 0 {
        let (t, data) = exts[0];
        let head = ext_bytes(t, data);
        let tail = exts.skip(1);
        lemma_pow256();
        lemma_be_round_trip(t as nat, 2);
        lemma_be_round_trip(data.len(), 2);
        lemma_exts_from(before + head, tail, rest);
        let p = before.len() as int;
        assert(buf =~= before + head + exts_bytes(tail) + rest);
        assert(buf.subrange(p, p + 2) =~= be_bytes(t as nat, 2));
        assert(buf.subrange(p + 2, p + 4) =~= be_bytes(data.len(), 2));
        assert(buf.subrange(p + 4, p + 4 + data.len()) =~= data);
        assert(seq![(t, data)] + tail =~= exts);
    } else {
        assert(exts =~= Seq::empty());
    }
}

/// An extension block is read back as the extensions it was written from, whatever
/// stands before and behind it.
pub proof fn lemma_ext_block_round_trip(
    before: Seq<u8>,
    exts: Seq<(u16, Seq<u8>)>,
    rest: Seq<u8>,
)
    requires
        exts_fit(exts),
        exts_bytes(exts).len() < 0x1_0000,
    ensures
        ({
            let block = be_bytes(exts_bytes(exts).len(), 2) + exts_bytes(exts);
            let buf = before + block + rest;
            &&& ext_block(buf, before.len() as int) == Ok::<_, TlsFault>(exts)
            &&& ext_block_stop(buf, before.len() as int) == before.len() + block.len()
        }),
{
    let n = exts_bytes(exts).len();
    lemma_pow256();
    lemma_be_round_trip(n, 2);
    let buf = before + (be_bytes(n, 2) + exts_bytes(exts)) + rest;
    let p = before.len() as int;
    assert(buf.subrange(p, p + 2) =~= be_bytes(n, 2));
    lemma_exts_from(before + be_bytes(n, 2), exts, rest);
    assert(buf =~= before + be_bytes(n, 2) + exts_bytes(exts) + rest);
}

/// The two bytes at `at` as a number.
pub fn read_u16(buf: &[u8], at: usize) -> (r: u16)
    requires
        at + 2 <= buf@.len(),
    ensures
        r == u16_at(buf@, at as int),
{
    proof {
        lemma_pow256();
        lemma_be_value_bytes(buf@.subrange(at as int, at + 2));
    }
    read_be(buf, at, 2) as u16
}

/// Parse the extension block of `buf` at `*pos`, moving `*pos` to where reading stopped:
/// the end of the block where it is whole.
pub fn parse_extensions(buf: &[u8], pos: &mut usize) -> (r: Result<Vec<(u16, Vec<u8>)>>)
    requires
        *old(pos) <= buf@.len(),
    ensures
        *final(pos) == ext_block_stop(buf@, *old(pos) as int),
        match ext_block(buf@, *old(pos) as int) {
            Ok(exts) => r is Ok && exts_view(r->Ok_0@) == exts && *final(pos) == *old(pos) + 2
                + u16_at(buf@, *old(pos) as int) <= buf@.len(),
            Err(f) => r is Err && r->Err_0@ == f,
        },
{
    if buf.len() - *pos < 2 {
        return Err(protocol("truncated extension block"));
    }
    let total: usize = read_u16(buf, *pos) as usize;
    *pos = *pos + 2;
    if buf.len() - *pos < total {
        return Err(protocol("truncated extension block"));
    }
    let ghost start = *pos as int;
    let end: usize = *pos + total;
    let mut out: Vec<(u16, Vec<u8>)> = Vec::new();
    proof {
        assert(exts_view(out@) =~= Seq::empty());
        let whole = exts_from(buf@, start, end as int);
        if whole is Ok {
            assert(Seq::empty() + whole->Ok_0 =~= whole->Ok_0);
        }
    }
    while *pos < end
        invariant
            *pos <= end <= buf.len(),
            exts_stop(buf@, start, end as int) == exts_stop(buf@, *pos as int, end as int),
            match exts_from(buf@, *pos as int, end as int) {
                Ok(rest) => exts_from(buf@, start, end as int) == Ok::<_, TlsFault>(
                    exts_view(out@) + rest,
                ),
                Err(f) => exts_from(buf@, start, end as int) == Err::<
                    Seq<(u16, Seq<u8>)>,
                    TlsFault,
                >(f),
            },
            start == *old(pos) + 2,
            end == start + u16_at(buf@, *old(pos) as int),
            *old(pos) + 2 + u16_at(buf@, *old(pos) as int) <= buf@.len(),
        decreases end - *pos,
    {
        if end - *pos < 4 {
            return Err(protocol("truncated extension"));
        }
        let ext_type: u16 = read_u16(buf, *pos);
        let ext_len: usize = read_u16(buf, *pos + 2) as usize;
        let ghost p = *pos as int;
        let ghost before = exts_view(out@);
        *pos = *pos + 4;
        if end - *pos < ext_len {
            return Err(protocol("truncated extension body"));
        }
        out.push((ext_type, copy_range(buf, *pos, *pos + ext_len)));
        *pos = *pos + ext_len;
        proof {
            let entry = (ext_type, buf@.subrange(p + 4, p + 4 + ext_len));
            assert(exts_view(out@) =~= before.push(entry));
            let tail = exts_from(buf@, *pos as int, end as int);
            if tail is Ok {
                assert(before + (seq![entry] + tail->Ok_0) =~= exts_view(out@) + tail->Ok_0);
            }
        }
    }
    proof {
        assert(exts_view(out@) + Seq::<(u16, Seq<u8>)>::empty() =~= exts_view(out@));
    }
    Ok(out)
}

/// The body of the first extension of type `t`.
pub open spec fn first_ext(exts: Seq<(u16, Seq<u8>)>, t: u16) -> Option<Seq<u8>>
    decreases exts.len(),
{
    if exts.len() == 0 {
        None
    } else if exts[0].0 == t {
        Some(exts[0].1)
    } else {
        first_ext(exts.skip(1), t)
    }
}

/// The body of the first extension of type `t` in parsed extensions.
pub fn find_extension<'a>(exts: &'a Vec<(u16, Vec<u8>)>, t: u16) -> (r: Option<&'a Vec<u8>>)
    ensures
        match first_ext(exts_view(exts@), t) {
            Some(d) => r is Some && r->Some_0@ == d,
            None => r is None,
        },
{
    let mut i: usize = 0;
    proof {
        assert(exts_view(exts@).skip(0) =~= exts_view(exts@));
    }
    while i < exts.len()
        invariant
            i <= exts@.len(),
            first_ext(exts_view(exts@), t) == first_ext(exts_view(exts@).skip(i as int), t),
        decreases exts@.len() - i,
    {
        if exts[i].0 == t {
            return Some(&exts[i].1);
        }
        proof {
            assert(exts_view(exts@).skip(i as int).skip(1) =~= exts_view(exts@).skip(i + 1));
        }
        i = i + 1;
    }
    None
}

// ---------------------------------------------------------------------------
// ServerHello
// ---------------------------------------------------------------------------

/// The parts of a `ServerHello` that the client acts on.
#[derive(Debug)]
pub struct ServerHello {
    /// The echoed legacy session id.
    pub legacy_session_id_echo: Vec<u8>,
    /// The cipher suite that the server selected.
    pub suite: u16,
    /// The server's X25519 key share.
    pub key_share: [u8; 32],
}

/// A `ServerHello` as a mathematical value.
#[verifier::ext_equal]
pub struct ServerHelloView {
    pub legacy_session_id_echo: Seq<u8>,
    pub suite: u16,
    pub key_share: Seq<u8>,
}

impl View for ServerHello {
    type V = ServerHelloView;

    open spec fn view(&self) -> ServerHelloView {
        ServerHelloView {
            legacy_session_id_echo: self.legacy_session_id_echo@,
            suite: self.suite,
            key_share: self.key_share@,
        }
    }
}

/// The X25519 public key in a `key_share` extension of a `ServerHello`.
pub open spec fn key_share_of(data: Seq<u8>) -> core::result::Result<Seq<u8>, TlsFault> {
    if data.len() < 4 || u16_at(data, 0) != GROUP_X25519 {
        Err(TlsFault::Unsupported("ServerHello key_share is not X25519"@))
    } else if data.len() < 36 || u16_at(data, 2) != 32 {
        Err(TlsFault::Protocol("invalid ServerHello key_share"@))
    } else {
        Ok(data.subrange(4, 36))
    }
}

/// What a `ServerHello` body says, or why it is refused.
pub open spec fn server_hello_of(body: Seq<u8>) -> core::result::Result<ServerHelloView, TlsFault> {
    if body.len() < 35 {
        Err(TlsFault::Protocol("truncated ServerHello"@))
    } else if body.subrange(2, 34) == HRR_RANDOM@ {
        Err(
            TlsFault::Unsupported(
                "server sent HelloRetryRequest (this client offers a single X25519 key share)"@,
            ),
        )
    } else if body.subrange(26, 34) == DOWNGRADE_TLS12@ {
        Err(TlsFault::Unsupported("server signals a TLS 1.2 downgrade; refusing TLS 1.2"@))
    } else if body.len() < 38 + body[34] {
        Err(TlsFault::Protocol("truncated ServerHello"@))
    } else {
        let at = 35 + body[34] as int;
        let suite = u16_at(body, at) as u16;
        if !known_suite(suite) {
            Err(
                TlsFault::Unsupported(
                    "server selected unsupported cipher suite 0x"@ + hex_padded(suite as nat, 4),
                ),
            )
        } else if body[at + 2] != 0 {
            Err(TlsFault::Protocol("server selected a compression method"@))
        } else {
            match ext_block(body, at + 3) {
                Err(f) => Err(f),
                Ok(exts) => match first_ext(exts, EXT_KEY_SHARE) {
                    None => Err(TlsFault::Protocol("ServerHello missing key_share"@)),
                    Some(data) => match key_share_of(data) {
                        Err(f) => Err(f),
                        Ok(key) => Ok(
                            ServerHelloView {
                                legacy_session_id_echo: body.subrange(35, at),
                                suite,
                                key_share: key,
                            },
                        ),
                    },
                },
            }
        }
    }
}

/// Parse a `ServerHello` body, without its handshake header. A `HelloRetryRequest` and a
/// downgrade sentinel are refused: the client offers one key share, and TLS 1.3 only.
pub fn parse_server_hello(body: &[u8]) -> (r: Result<ServerHello>)
    ensures
        match server_hello_of(body@) {
            Ok(h) => r is Ok && r->Ok_0@ == h,
            Err(f) => r is Err && r->Err_0@ == f,
        },
{
    if body.len() < 35 {
        return Err(protocol("truncated ServerHello"));
    }
    if matches_at(body, 2, &HRR_RANDOM) {
        return Err(
            unsupported(
                "server sent HelloRetryRequest (this client offers a single X25519 key share)",
            ),
        );
    }
    if matches_at(body, 26, &DOWNGRADE_TLS12) {
        return Err(unsupported("server signals a TLS 1.2 downgrade; refusing TLS 1.2"));
    }
    let sid_len: usize = body[34] as usize;
    if body.len() < 35 + sid_len + 3 {
        return Err(protocol("truncated ServerHello"));
    }
    let legacy_session_id_echo = copy_range(body, 35, 35 + sid_len);
    let mut pos: usize = 35 + sid_len;
    let suite: u16 = read_u16(body, pos);
    pos = pos + 2;
    if !is_supported_suite(suite) {
        let mut m = owned("server selected unsupported cipher suite 0x");
        push_hex_padded(&mut m, suite as u64, 4);
        return Err(Tls13Error::Unsupported(m));
    }
    if body[pos] != 0x00 {
        return Err(protocol("server selected a compression method"));
    }
    pos = pos + 1;
    let exts = match parse_extensions(body, &mut pos) {
        Ok(e) => e,
        Err(e) => return Err(e),
    };
    let key_share = match find_extension(&exts, EXT_KEY_SHARE) {
        Some(d) => d,
        None => return Err(protocol("ServerHello missing key_share")),
    };
    if key_share.len() < 4 || read_u16(key_share, 0) != GROUP_X25519 {
        return Err(unsupported("ServerHello key_share is not X25519"));
    }
    let key_len: usize = read_u16(key_share, 2) as usize;
    if key_share.len() < 4 + key_len || key_len != 32 {
        return Err(protocol("invalid ServerHello key_share"));
    }
    let server_pub = array32(slice_subrange(key_share.as_slice(), 4, 36));
    Ok(ServerHello { legacy_session_id_echo, suite, key_share: server_pub })
}

// ---------------------------------------------------------------------------
// CertificateVerify
// ---------------------------------------------------------------------------

/// The context string of a `CertificateVerify`, without its terminator.
pub open spec fn verify_context(client: bool) -> Seq<u8> {
    if client {
        "TLS 1.3, client CertificateVerify".spec_bytes()
    } else {
        "TLS 1.3, server CertificateVerify".spec_bytes()
    }
}

/// What a `CertificateVerify` signs: 64 spaces, the context string, a zero byte, the
/// transcript hash.
pub open spec fn verify_content(transcript_hash: Seq<u8>, client: bool) -> Seq<u8> {
    Seq::new(64, |i: int| 0x20u8) + verify_context(client) + seq![0u8] + transcript_hash
}

/// The content that a TLS 1.3 `CertificateVerify` signs (RFC 8446 section 4.4.3).
pub fn cert_verify_content(transcript_hash: &[u8], client: bool) -> (r: Vec<u8>)
    ensures
        r@ == verify_content(transcript_hash@, client),
{
    let mut out = repeat(0x20, 64);
    if client {
        extend(&mut out, "TLS 1.3, client CertificateVerify".as_bytes());
    } else {
        extend(&mut out, "TLS 1.3, server CertificateVerify".as_bytes());
    }
    out.push(0);
    extend(&mut out, transcript_hash);
    proof {
        assert(out@ =~= verify_content(transcript_hash@, client));
    }
    out
}

/// A DER length at `pos`: the length and the bytes it takes. Four length bytes at most.
pub open spec fn der_len_at(der: Seq<u8>, pos: int) -> Option<(nat, nat)> {
    if pos >= der.len() {
        None
    } else if der[pos] < 0x80 {
        Some((der[pos] as nat, 1))
    } else {
        let n = der[pos] - 0x80;
        if n == 0 || n > 4 || der.len() - pos < 1 + n {
            None
        } else {
            Some((be_value(der.subrange(pos + 1, pos + 1 + n)), (1 + n) as nat))
        }
    }
}

/// Parse a DER length at `*pos`, moving `*pos` behind it: the length, and the bytes it
/// took.
pub fn der_len(der: &[u8], pos: &mut usize) -> (r: Option<(usize, usize)>)
    ensures
        match der_len_at(der@, *old(pos) as int) {
            None => r is None && *final(pos) == *old(pos),
            Some((len, used)) => r is Some && r->Some_0.0 == len && r->Some_0.1 == used
                && *final(pos) == *old(pos) + used <= der@.len(),
        },
{
    if *pos >= der.len() {
        return None;
    }
    let b0: u8 = der[*pos];
    if b0 < 0x80 {
        *pos = *pos + 1;
        return Some((b0 as usize, 1));
    }
    let n: usize = (b0 - 0x80) as usize;
    if n == 0 || n > 4 || der.len() - *pos < 1 + n {
        return None;
    }
    proof {
        let s = der@.subrange(*pos + 1, *pos + 1 + n);
        lemma_be_value_bytes(s);
        crate::wire::lemma_pow256();
        reveal_with_fuel(crate::wire::pow256, 5);
    }
    let len: usize = read_be(der, *pos + 1, n) as usize;
    *pos = *pos + 1 + n;
    Some((len, 1 + n))
}

/// The magnitude of a DER INTEGER: leading zeros taken off, one byte kept.
pub open spec fn magnitude(s: Seq<u8>) -> Seq<u8>
    decreases s.len(),
{
    if s.len() > 1 && s[0] == 0 {
        magnitude(s.skip(1))
    } else {
        s
    }
}

/// Take the leading zeros off the bytes of a DER INTEGER.
pub fn strip_leading_zeros(bytes: &[u8]) -> (r: &[u8])
    ensures
        r@ == magnitude(bytes@),
{
    let mut i: usize = 0;
    proof {
        assert(bytes@.skip(0) =~= bytes@);
    }
    while i < bytes.len() && i + 1 < bytes.len() && bytes[i] == 0x00
        invariant
            i <= bytes.len(),
            magnitude(bytes@.skip(i as int)) == magnitude(bytes@),
        decreases bytes.len() - i,
    {
        proof {
            assert(bytes@.skip(i as int).skip(1) =~= bytes@.skip(i + 1));
        }
        i = i + 1;
    }
    let r = slice_subrange(bytes, i, bytes.len());
    proof {
        assert(r@ =~= bytes@.skip(i as int));
    }
    r
}

/// The DER INTEGER at `pos`: its magnitude and the position behind it.
pub open spec fn der_integer_at(der: Seq<u8>, pos: int) -> Option<(Seq<u8>, int)> {
    if pos >= der.len() || der[pos] != 2 {
        None
    } else {
        match der_len_at(der, pos + 1) {
            None => None,
            Some((len, used)) => if der.len() - (pos + 1 + used) < len {
                None
            } else {
                Some(
                    (
                        magnitude(der.subrange(pos + 1 + used, pos + 1 + used + len)),
                        pos + 1 + used + len,
                    ),
                )
            },
        }
    }
}

/// The modulus and the exponent of a DER `RSAPublicKey`.
pub open spec fn rsa_key_of(der: Seq<u8>) -> Option<(Seq<u8>, Seq<u8>)> {
    if der.len() < 8 || der[0] != 0x30 {
        None
    } else {
        match der_len_at(der, 1) {
            None => None,
            Some((len, used)) => match der_integer_at(der, 1 + used as int) {
                None => None,
                Some((n, next)) => match der_integer_at(der, next) {
                    None => None,
                    Some((e, end)) => if n.len() == 0 || e.len() == 0 {
                        None
                    } else {
                        Some((n, e))
                    },
                },
            },
        }
    }
}

fn der_integer(der: &[u8], pos: &mut usize) -> (r: Option<Vec<u8>>)
    ensures
        match der_integer_at(der@, *old(pos) as int) {
            None => r is None,
            Some((m, next)) => r is Some && r->Some_0@ == m && *final(pos) == next <= der@.len(),
        },
{
    if *pos >= der.len() || der[*pos] != 0x02 {
        return None;
    }
    *pos = *pos + 1;
    let len: usize = match der_len(der, pos) {
        Some((len, _)) => len,
        None => return None,
    };
    if der.len() - *pos < len {
        return None;
    }
    let body = slice_subrange(der, *pos, *pos + len);
    let stripped = strip_leading_zeros(body);
    let m = copy_range(stripped, 0, stripped.len());
    proof {
        assert(m@ =~= stripped@);
    }
    *pos = *pos + len;
    Some(m)
}

/// Parse an RSA public key: SEQUENCE { INTEGER n, INTEGER e }.
pub fn parse_rsa_spki(der: &[u8]) -> (r: Option<(Vec<u8>, Vec<u8>)>)
    ensures
        match rsa_key_of(der@) {
            None => r is None,
            Some((n, e)) => r is Some && r->Some_0.0@ == n && r->Some_0.1@ == e,
        },
{
    if der.len() < 8 || der[0] != 0x30 {
        return None;
    }
    let mut pos: usize = 1;
    if der_len(der, &mut pos).is_none() {
        return None;
    }
    let n = match der_integer(der, &mut pos) {
        Some(n) => n,
        None => return None,
    };
    let e = match der_integer(der, &mut pos) {
        Some(e) => e,
        None => return None,
    };
    if n.len() == 0 || e.len() == 0 {
        return None;
    }
    Some((n, e))
}

/// Whether `key` is an uncompressed point with coordinates of `coord` bytes.
pub open spec fn is_ec_point(key: Seq<u8>, coord: nat) -> bool {
    key.len() == 1 + 2 * coord && key[0] == 4
}

/// Parse an uncompressed point: `0x04`, x, y.
pub fn parse_ec_point(key: &[u8], coord: usize) -> (r: Option<(&[u8], &[u8])>)
    requires
        coord <= 0x1000_0000,
    ensures
        is_ec_point(key@, coord as nat) ==> r is Some && r->Some_0.0@ == key@.subrange(
            1,
            1 + coord,
        ) && r->Some_0.1@ == key@.subrange(1 + coord, 1 + 2 * coord),
        !is_ec_point(key@, coord as nat) ==> r is None,
{
    if key.len() != 1 + 2 * coord || key[0] != 0x04 {
        return None;
    }
    Some((slice_subrange(key, 1, 1 + coord), slice_subrange(key, 1 + coord, key.len())))
}

/// Whether a signature of `content` under a scheme is right, given the bytes of the
/// subject's public key.
pub open spec fn signature_valid(key: Seq<u8>, scheme: u16, content: Seq<u8>, signature: Seq<u8>) -> bool {
    if scheme == SIG_RSA_PSS_SHA256 {
        rsa_key_of(key) is Some && pss_valid(
            HashAlg::Sha256,
            rsa_key_of(key)->Some_0.0,
            rsa_key_of(key)->Some_0.1,
            32,
            content,
            signature,
        )
    } else if scheme == SIG_RSA_PSS_SHA384 {
        rsa_key_of(key) is Some && pss_valid(
            HashAlg::Sha384,
            rsa_key_of(key)->Some_0.0,
            rsa_key_of(key)->Some_0.1,
            48,
            content,
            signature,
        )
    } else if scheme == SIG_ECDSA_SECP256R1_SHA256 {
        is_ec_point(key, 32) && pair_fits(signature) && ecdsa_valid(
            EcCurve::P256,
            key.subrange(1, 33),
            key.subrange(33, 65),
            digest_of(HashAlg::Sha256, content),
            signature,
        )
    } else if scheme == SIG_ECDSA_SECP384R1_SHA384 {
        is_ec_point(key, 48) && pair_fits(signature) && ecdsa_valid(
            EcCurve::P384,
            key.subrange(1, 49),
            key.subrange(49, 97),
            digest_of(HashAlg::Sha384, content),
            signature,
        )
    } else if scheme == SIG_ED25519 {
        key.len() >= 32 && signature.len() == 64 && ed25519_valid(
            key.subrange(0, 32),
            content,
            signature,
        )
    } else {
        false
    }
}

/// Verify a TLS 1.3 `CertificateVerify` signature. `spki_key` is the subject's public
/// key as its certificate holds it, `content` is [`cert_verify_content`].
pub fn verify_signature(spki_key: &[u8], scheme: u16, content: &[u8], signature: &[u8]) -> (r: bool)
    ensures
        r == signature_valid(spki_key@, scheme, content@, signature@),
{
    if scheme == SIG_RSA_PSS_SHA256 || scheme == SIG_RSA_PSS_SHA384 {
        match parse_rsa_spki(spki_key) {
            None => false,
            Some((n, e)) => if scheme == SIG_RSA_PSS_SHA256 {
                pss_verify(HashAlg::Sha256, n, e, 32, content, signature)
            } else {
                pss_verify(HashAlg::Sha384, n, e, 48, content, signature)
            },
        }
    } else if scheme == SIG_ECDSA_SECP256R1_SHA256 {
        match parse_ec_point(spki_key, 32) {
            None => false,
            Some((x, y)) => {
                let d = digest(HashAlg::Sha256, content);
                is_pair(signature) && ecdsa_verify(EcCurve::P256, x, y, &d, signature)
            },
        }
    } else if scheme == SIG_ECDSA_SECP384R1_SHA384 {
        match parse_ec_point(spki_key, 48) {
            None => false,
            Some((x, y)) => {
                let d = digest(HashAlg::Sha384, content);
                is_pair(signature) && ecdsa_verify(EcCurve::P384, x, y, &d, signature)
            },
        }
    } else if scheme == SIG_ED25519 {
        if spki_key.len() < 32 || signature.len() != 64 {
            false
        } else {
            let key = array32(slice_subrange(spki_key, 0, 32));
            let sig = array64(signature);
            ed25519_verify(&key, content, &sig)
        }
    } else {
        false
    }
}

} // verus!
