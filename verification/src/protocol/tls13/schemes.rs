//! What the numbers of TLS 1.3 stand for, and what a peer's messages are read as: the
//! algorithm of each signature scheme (RFC 8446 section 4.2.3) and of each cipher suite
//! (appendix B.4), public keys, and the `ServerHello`.

use super::codec::{
    der_integer_at, der_len_at, exts_bytes, exts_fit, first_ext, known_suite,
    lemma_ext_block_round_trip, magnitude, rsa_key_of, server_hello_of, signature_valid, u16_at,
    verify_content,
};
use super::key_schedule::{
    hash_for, hkdf_label, labeled, opened, sealed, traffic_iv, traffic_key, KeyView, SuiteHash,
};
use crate::crypto::{
    chacha_opened, chacha_sealed, digest_of, ecdsa_valid, ed25519_valid, gcm_opened, gcm_sealed,
    pss_valid, EcCurve, HashAlg,
};
use crate::der::pair_fits;
use crate::wire::{be_bytes, be_value, lemma_be_bytes_len, lemma_be_round_trip, lemma_pow256};
use vstd::prelude::*;
use vstd::string::*;

verus! {

// ---------------------------------------------------------------------------
// Signature schemes
// ---------------------------------------------------------------------------

/// `rsa_pss_rsae_sha256` is RSASSA-PSS with SHA-256 and a salt of 32 bytes, under the
/// modulus and the exponent of the key, and `rsa_pss_rsae_sha384` is it with SHA-384 and a
/// salt of 48 bytes. What is no RSA key verifies nothing.
pub proof fn lemma_pss_schemes(key: Seq<u8>, n: Seq<u8>, e: Seq<u8>, content: Seq<u8>, sig: Seq<u8>)
    ensures
        rsa_key_of(key) == Some((n, e)) ==> {
            &&& signature_valid(key, 0x0804, content, sig) == pss_valid(
                HashAlg::Sha256,
                n,
                e,
                32,
                content,
                sig,
            )
            &&& signature_valid(key, 0x0805, content, sig) == pss_valid(
                HashAlg::Sha384,
                n,
                e,
                48,
                content,
                sig,
            )
        },
        rsa_key_of(key) is None ==> !signature_valid(key, 0x0804, content, sig)
            && !signature_valid(key, 0x0805, content, sig),
{
}

/// `ecdsa_secp256r1_sha256` is ECDSA over P-256 and the SHA-256 digest of the content, under
/// the point that the key writes as `0x04`, x, y with coordinates of 32 bytes, for a
/// signature that is a pair of numbers. Anything else verifies nothing.
pub proof fn lemma_p256_scheme(
    key: Seq<u8>,
    x: Seq<u8>,
    y: Seq<u8>,
    content: Seq<u8>,
    sig: Seq<u8>,
)
    requires
        x.len() == 32,
        y.len() == 32,
    ensures
        key == seq![4u8] + x + y && pair_fits(sig) ==> signature_valid(key, 0x0403, content, sig)
            == ecdsa_valid(EcCurve::P256, x, y, digest_of(HashAlg::Sha256, content), sig),
        signature_valid(key, 0x0403, content, sig) ==> key.len() == 65 && key[0] == 4 && pair_fits(
            sig,
        ),
{
    if key == seq![4u8] + x + y {
        assert(key.subrange(1, 33) =~= x);
        assert(key.subrange(33, 65) =~= y);
    }
}

/// `ecdsa_secp384r1_sha384` is ECDSA over P-384 and the SHA-384 digest of the content, with
/// coordinates of 48 bytes.
pub proof fn lemma_p384_scheme(
    key: Seq<u8>,
    x: Seq<u8>,
    y: Seq<u8>,
    content: Seq<u8>,
    sig: Seq<u8>,
)
    requires
        x.len() == 48,
        y.len() == 48,
    ensures
        key == seq![4u8] + x + y && pair_fits(sig) ==> signature_valid(key, 0x0503, content, sig)
            == ecdsa_valid(EcCurve::P384, x, y, digest_of(HashAlg::Sha384, content), sig),
        signature_valid(key, 0x0503, content, sig) ==> key.len() == 97 && key[0] == 4 && pair_fits(
            sig,
        ),
{
    if key == seq![4u8] + x + y {
        assert(key.subrange(1, 49) =~= x);
        assert(key.subrange(49, 97) =~= y);
    }
}

/// `ed25519` is Ed25519 over the content itself, under the 32 bytes of the key.
pub proof fn lemma_ed25519_scheme(key: Seq<u8>, content: Seq<u8>, sig: Seq<u8>)
    ensures
        key.len() == 32 && sig.len() == 64 ==> signature_valid(key, 0x0807, content, sig)
            == ed25519_valid(key, content, sig),
        key.len() < 32 || sig.len() != 64 ==> !signature_valid(key, 0x0807, content, sig),
{
    if key.len() == 32 {
        assert(key.subrange(0, 32) =~= key);
    }
}

/// A scheme that is none of these verifies nothing: neither PKCS #1 v1.5 nor SHA-1.
pub proof fn lemma_other_schemes(key: Seq<u8>, scheme: u16, content: Seq<u8>, sig: Seq<u8>)
    requires
        scheme != 0x0804,
        scheme != 0x0805,
        scheme != 0x0403,
        scheme != 0x0503,
        scheme != 0x0807,
    ensures
        !signature_valid(key, scheme, content, sig),
{
}

/// What is signed names the side that signs behind 64 spaces, and ends with the hash behind
/// a zero byte: no two hashes are signed alike.
pub proof fn lemma_signed_content(hash: Seq<u8>, other: Seq<u8>, client: bool)
    ensures
        ({
            let content = verify_content(hash, client);
            let side = if client {
                "TLS 1.3, client CertificateVerify".spec_bytes()
            } else {
                "TLS 1.3, server CertificateVerify".spec_bytes()
            };
            &&& content.len() == 64 + side.len() + 1 + hash.len()
            &&& forall|i: int| 0 <= i < 64 ==> #[trigger] content[i] == 0x20
            &&& content.subrange(64, 64 + side.len() as int) == side
            &&& content[64 + side.len() as int] == 0
            &&& content.skip(65 + side.len() as int) == hash
            &&& verify_content(other, client) == content ==> other == hash
        }),
{
    let content = verify_content(hash, client);
    let side = if client {
        "TLS 1.3, client CertificateVerify".spec_bytes()
    } else {
        "TLS 1.3, server CertificateVerify".spec_bytes()
    };
    assert(content.subrange(64, 64 + side.len() as int) =~= side);
    assert(content.skip(65 + side.len() as int) =~= hash);
    assert(verify_content(other, client).skip(65 + side.len() as int) =~= other);
}

// ---------------------------------------------------------------------------
// Public keys
// ---------------------------------------------------------------------------

/// A DER length (X.690 section 8.1.3) below 2^16.
pub open spec fn der_length(n: nat) -> Seq<u8> {
    if n < 0x80 {
        seq![n as u8]
    } else if n < 0x100 {
        seq![0x81u8, n as u8]
    } else {
        seq![0x82u8] + be_bytes(n, 2)
    }
}

/// A DER INTEGER of the number that `m` writes: a zero byte first where its high bit is set.
pub open spec fn der_integer(m: Seq<u8>) -> Seq<u8> {
    let body = if m[0] >= 0x80 {
        seq![0u8] + m
    } else {
        m
    };
    seq![2u8] + der_length(body.len()) + body
}

/// A DER `RSAPublicKey`: the modulus, then the exponent.
pub open spec fn rsa_key(n: Seq<u8>, e: Seq<u8>) -> Seq<u8> {
    let body = der_integer(n) + der_integer(e);
    seq![0x30u8] + der_length(body.len()) + body
}

proof fn lemma_length_read(der: Seq<u8>, pos: int, n: nat)
    requires
        n < 0x1_0000,
        0 <= pos,
        pos + der_length(n).len() <= der.len(),
        der.subrange(pos, pos + der_length(n).len()) == der_length(n),
    ensures
        der_len_at(der, pos) == Some((n, der_length(n).len())),
{
    let d = der_length(n);
    let part = der.subrange(pos, pos + d.len());
    lemma_pow256();
    assert(part[0] == der[pos]);
    if n >= 0x80 && n < 0x100 {
        assert(part[1] == der[pos + 1]);
        let b = der.subrange(pos + 1, pos + 2);
        assert(b =~= seq![n as u8]);
        assert(b.drop_last() =~= Seq::empty());
        reveal_with_fuel(be_value, 2);
    } else if n >= 0x100 {
        lemma_be_round_trip(n, 2);
        assert(der.subrange(pos + 1, pos + 3) =~= be_bytes(n, 2)) by {
            assert forall|i: int| 0 <= i < 2 implies der[pos + 1 + i] == be_bytes(n, 2)[i] by {
                assert(part[1 + i] == d[1 + i]);
            }
        }
    }
}

proof fn lemma_integer_read(der: Seq<u8>, pos: int, m: Seq<u8>)
    requires
        0 < m.len() < 0xffff,
        m[0] != 0,
        0 <= pos,
        pos + der_integer(m).len() <= der.len(),
        der.subrange(pos, pos + der_integer(m).len()) == der_integer(m),
    ensures
        der_integer_at(der, pos) == Some((m, pos + der_integer(m).len())),
{
    let body = if m[0] >= 0x80 {
        seq![0u8] + m
    } else {
        m
    };
    let d = der_integer(m);
    let l = der_length(body.len());
    let part = der.subrange(pos, pos + d.len());
    assert(part[0] == der[pos]);
    assert(der.subrange(pos + 1, pos + 1 + l.len()) =~= l) by {
        assert forall|i: int| 0 <= i < l.len() implies der[pos + 1 + i] == l[i] by {
            assert(part[1 + i] == d[1 + i]);
        }
    }
    lemma_length_read(der, pos + 1, body.len());
    let at = pos + 1 + l.len();
    assert(der.subrange(at, at + body.len()) =~= body) by {
        assert forall|i: int| 0 <= i < body.len() implies der[at + i] == body[i] by {
            assert(part[1 + l.len() + i] == d[1 + l.len() + i]);
        }
    }
    assert(magnitude(body) == m) by {
        if m[0] >= 0x80 {
            assert(body.skip(1) =~= m);
            reveal_with_fuel(magnitude, 2);
        }
    }
}

/// An RSA key is read as the modulus and the exponent that it was written with, each without
/// leading zeros.
pub proof fn lemma_rsa_key_round_trip(n: Seq<u8>, e: Seq<u8>)
    requires
        0 < n.len() < 0x4000,
        0 < e.len() < 0x4000,
        n[0] != 0,
        e[0] != 0,
    ensures
        rsa_key_of(rsa_key(n, e)) == Some((n, e)),
{
    let a = der_integer(n);
    let b = der_integer(e);
    let body = a + b;
    let l = der_length(body.len());
    let key = rsa_key(n, e);
    lemma_be_bytes_len(n.len(), 2);
    lemma_be_bytes_len(n.len() + 1, 2);
    lemma_be_bytes_len(e.len(), 2);
    lemma_be_bytes_len(e.len() + 1, 2);
    lemma_be_bytes_len(body.len(), 2);
    assert(key.subrange(1, 1 + l.len() as int) =~= l);
    lemma_length_read(key, 1, body.len());
    let p = 1 + l.len() as int;
    assert(key.subrange(p, p + a.len()) =~= a);
    lemma_integer_read(key, p, n);
    let q = p + a.len();
    assert(key.subrange(q, q + b.len()) =~= b);
    lemma_integer_read(key, q, e);
}

// ---------------------------------------------------------------------------
// Cipher suites
// ---------------------------------------------------------------------------

/// The suites of TLS 1.3 with keys here, and their hashes. No other is taken.
pub proof fn lemma_suites(suite: u16)
    ensures
        known_suite(suite) <==> suite == 0x1301 || suite == 0x1302 || suite == 0x1303,
        hash_for(0x1301) == SuiteHash::Sha256 && hash_for(0x1301).size() == 32,
        hash_for(0x1302) == SuiteHash::Sha384 && hash_for(0x1302).size() == 48,
        hash_for(0x1303) == SuiteHash::Sha256 && hash_for(0x1303).size() == 32,
{
}

/// What each suite seals and opens with (RFC 8446 appendix B.4): AES-GCM under a key of 16
/// bytes, AES-GCM under one of 32, ChaCha20-Poly1305 under one of 32. A key and its vector
/// are expanded from a secret under labels of their own.
pub proof fn lemma_suite_algorithms(
    key: KeyView,
    nonce: Seq<u8>,
    aad: Seq<u8>,
    plain: Seq<u8>,
    ct: Seq<u8>,
    h: SuiteHash,
    secret: Seq<u8>,
)
    ensures
        key.suite == 0x1301 || key.suite == 0x1302 ==> {
            &&& sealed(key, nonce, aad, plain) == gcm_sealed(key.key, nonce, aad, plain)
            &&& opened(key, nonce, aad, ct) == gcm_opened(key.key, nonce, aad, ct)
        },
        key.suite == 0x1303 ==> {
            &&& sealed(key, nonce, aad, plain) == chacha_sealed(key.key, nonce, aad, plain)
            &&& opened(key, nonce, aad, ct) == chacha_opened(key.key, nonce, aad, ct)
        },
        traffic_key(0x1301, h, secret).key == labeled(
            h,
            secret,
            "key".spec_bytes(),
            Seq::empty(),
            16,
        ),
        traffic_key(0x1302, h, secret).key == labeled(
            h,
            secret,
            "key".spec_bytes(),
            Seq::empty(),
            32,
        ),
        traffic_key(0x1303, h, secret).key == labeled(
            h,
            secret,
            "key".spec_bytes(),
            Seq::empty(),
            32,
        ),
        traffic_key(0x1303, h, secret).suite == 0x1303,
        traffic_iv(h, secret) == labeled(h, secret, "iv".spec_bytes(), Seq::empty(), 12),
{
}

/// The label of an expansion is the one of TLS 1.3, behind the length that is asked for and
/// before the hash that it is bound to (RFC 8446 section 7.1).
pub proof fn lemma_expansion_label(len: nat, label: Seq<u8>, context: Seq<u8>)
    requires
        len < 0x1_0000,
        label.len() < 200,
        context.len() < 256,
    ensures
        ({
            let l = hkdf_label(len, label, context);
            let n = "tls13 ".spec_bytes().len() as int;
            &&& be_value(l.subrange(0, 2)) == len
            &&& l[2] == label.len() + 6
            &&& l.subrange(3, 3 + n) == "tls13 ".spec_bytes()
            &&& l.subrange(3 + n, 3 + n + label.len()) == label
            &&& l[3 + n + label.len()] == context.len()
            &&& l.skip(4 + n + label.len()) == context
        }),
{
    let l = hkdf_label(len, label, context);
    let n = "tls13 ".spec_bytes().len() as int;
    lemma_pow256();
    lemma_be_round_trip(len, 2);
    assert(l.subrange(0, 2) =~= be_bytes(len, 2));
    assert(l.subrange(3, 3 + n) =~= "tls13 ".spec_bytes());
    assert(l.subrange(3 + n, 3 + n + label.len()) =~= label);
    assert(l.skip(4 + n + label.len()) =~= context);
}

// ---------------------------------------------------------------------------
// The ServerHello
// ---------------------------------------------------------------------------

/// A `ServerHello` body (RFC 8446 section 4.1.3).
pub open spec fn server_hello_bytes(
    random: Seq<u8>,
    session: Seq<u8>,
    suite: u16,
    compression: u8,
    exts: Seq<(u16, Seq<u8>)>,
) -> Seq<u8> {
    be_bytes(0x0303, 2) + random + seq![session.len() as u8] + session + be_bytes(suite as nat, 2)
        + seq![compression] + (be_bytes(exts_bytes(exts).len(), 2) + exts_bytes(exts))
}

/// An X25519 share: the group, the length of the key, the key.
pub open spec fn share_bytes(group: u16, key: Seq<u8>) -> Seq<u8> {
    be_bytes(group as nat, 2) + be_bytes(key.len(), 2) + key
}

proof fn lemma_share_read(group: u16, key: Seq<u8>)
    requires
        key.len() < 0x1_0000,
    ensures
        share_bytes(group, key).len() == 4 + key.len(),
        u16_at(share_bytes(group, key), 0) == group,
        u16_at(share_bytes(group, key), 2) == key.len(),
        share_bytes(group, key).skip(4) == key,
{
    let s = share_bytes(group, key);
    lemma_pow256();
    lemma_be_round_trip(group as nat, 2);
    lemma_be_round_trip(key.len(), 2);
    assert(s.subrange(0, 2) =~= be_bytes(group as nat, 2));
    assert(s.subrange(2, 4) =~= be_bytes(key.len(), 2));
    assert(s.skip(4) =~= key);
}

/// A `ServerHello` with a suite that is known and a share of X25519 is read as the session
/// identifier, the suite and the key that the server wrote, whatever other extensions stand
/// around the share. Another suite, a compression method and another group are refused.
pub proof fn lemma_server_hello_round_trip(
    random: Seq<u8>,
    session: Seq<u8>,
    suite: u16,
    compression: u8,
    group: u16,
    key: Seq<u8>,
    before: Seq<(u16, Seq<u8>)>,
    behind: Seq<(u16, Seq<u8>)>,
)
    requires
        random.len() == 32,
        session.len() <= 32,
        key.len() == 32,
        exts_fit(before + seq![(0x33u16, share_bytes(group, key))] + behind),
        exts_bytes(before + seq![(0x33u16, share_bytes(group, key))] + behind).len() < 0x1_0000,
        forall|i: int| 0 <= i < before.len() ==> (#[trigger] before[i]).0 != 0x33,
        random != super::codec::HRR_RANDOM@,
        random.skip(24) != super::codec::DOWNGRADE_TLS12@,
    ensures
        ({
            let exts = before + seq![(0x33u16, share_bytes(group, key))] + behind;
            let r = server_hello_of(server_hello_bytes(random, session, suite, compression, exts));
            let known = suite == 0x1301 || suite == 0x1302 || suite == 0x1303;
            &&& r is Ok <==> known && compression == 0 && group == 0x1d
            &&& r matches Ok(h) ==> h.legacy_session_id_echo == session && h.suite == suite
                && h.key_share == key
        }),
{
    let exts = before + seq![(0x33u16, share_bytes(group, key))] + behind;
    let n = exts_bytes(exts).len();
    let body = server_hello_bytes(random, session, suite, compression, exts);
    lemma_pow256();
    lemma_be_round_trip(0x0303, 2);
    lemma_be_round_trip(suite as nat, 2);
    lemma_be_round_trip(n, 2);
    assert(body.subrange(2, 34) =~= random);
    assert(body.subrange(26, 34) =~= random.skip(24));
    assert(body[34] == session.len());
    let at = 35 + session.len() as int;
    assert(body.subrange(35, at) =~= session);
    assert(body.subrange(at, at + 2) =~= be_bytes(suite as nat, 2));
    assert(u16_at(body, at) as u16 == suite);
    assert(body[at + 2] == compression);
    let head = be_bytes(0x0303, 2) + random + seq![session.len() as u8] + session + be_bytes(
        suite as nat,
        2,
    ) + seq![compression];
    let none = Seq::<u8>::empty();
    lemma_ext_block_round_trip(head, exts, none);
    assert(head + (be_bytes(n, 2) + exts_bytes(exts)) + none =~= body);
    lemma_first_ext(before, 0x33, share_bytes(group, key), behind);
    lemma_share_read(group, key);
    assert(share_bytes(group, key).subrange(4, 36) =~= key);
}

/// An extension is found behind others, and the first of two is.
pub proof fn lemma_first_ext(
    before: Seq<(u16, Seq<u8>)>,
    kind: u16,
    data: Seq<u8>,
    behind: Seq<(u16, Seq<u8>)>,
)
    requires
        forall|i: int| 0 <= i < before.len() ==> (#[trigger] before[i]).0 != kind,
    ensures
        first_ext(before + seq![(kind, data)] + behind, kind) == Some(data),
        first_ext(before, kind) is None,
    decreases before.len(),
{
    let all = before + seq![(kind, data)] + behind;
    if before.len() == 0 {
        assert(all[0] == (kind, data));
    } else {
        let rest = before.skip(1);
        assert(all[0] == before[0]);
        assert forall|i: int| 0 <= i < rest.len() implies (#[trigger] rest[i]).0 != kind by {
            assert(rest[i] == before[i + 1]);
        }
        lemma_first_ext(rest, kind, data, behind);
        assert(all.skip(1) =~= rest + seq![(kind, data)] + behind);
    }
}

} // verus!
