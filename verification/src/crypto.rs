//! Cryptographic primitives: calls into the crates that implement them.
//!
//! Each result is a function of the arguments alone and has a name here; the
//! contracts of the code above speak of these names.

use crate::der::pair_fits;
use courierust::courierust_crypto::{base64, sha1};
use courierust::courierust_tls::crypto::{chacha20poly1305, ecdsa, ed25519, gcm, hash, hmac, rng, rsa};
use vstd::prelude::*;
use vstd::string::*;

verus! {

/// The hash functions in use.
#[derive(Debug, Clone, Copy, PartialEq, Eq, Structural)]
pub enum HashAlg {
    Sha256,
    Sha384,
    Sha512,
}

/// The length of a digest in bytes.
pub open spec fn digest_len(alg: HashAlg) -> nat {
    match alg {
        HashAlg::Sha256 => 32,
        HashAlg::Sha384 => 48,
        HashAlg::Sha512 => 64,
    }
}

/// The SHA-2 digest of `data`.
pub uninterp spec fn digest_of(alg: HashAlg, data: Seq<u8>) -> Seq<u8>;

/// `courierust_tls::crypto::hash::hash` with a fresh SHA-256, SHA-384 or SHA-512
/// state: the digest of `data`, whose length is the hash function's.
#[verifier::external_body]
pub(crate) fn digest(alg: HashAlg, data: &[u8]) -> (r: Vec<u8>)
    ensures
        r@ == digest_of(alg, data@),
        r@.len() == digest_len(alg),
{
    match alg {
        HashAlg::Sha256 => hash::hash(&mut hash::Sha256::new(), data),
        HashAlg::Sha384 => hash::hash(&mut hash::Sha384::new(), data),
        HashAlg::Sha512 => hash::hash(&mut ed25519::Sha512::new(), data),
    }
}

/// The HMAC of `data` under `key`.
pub uninterp spec fn mac_of(alg: HashAlg, key: Seq<u8>, data: Seq<u8>) -> Seq<u8>;

/// `courierust_tls::crypto::hmac::hmac` with a fresh state: the HMAC of `data` under
/// `key`, as long as the hash function's digest.
#[verifier::external_body]
pub(crate) fn mac(alg: HashAlg, key: &[u8], data: &[u8]) -> (r: Vec<u8>)
    ensures
        r@ == mac_of(alg, key@, data@),
        r@.len() == digest_len(alg),
{
    match alg {
        HashAlg::Sha256 => hmac::hmac(&mut hash::Sha256::new(), key, data),
        HashAlg::Sha384 => hmac::hmac(&mut hash::Sha384::new(), key, data),
        HashAlg::Sha512 => hmac::hmac(&mut ed25519::Sha512::new(), key, data),
    }
}

/// The SHA-1 digest of `data`.
pub uninterp spec fn sha1_of(data: Seq<u8>) -> Seq<u8>;

/// `courierust_crypto::sha1::sha1`: the twenty-byte digest of `data`.
#[verifier::external_body]
pub(crate) fn sha1_digest(data: &[u8]) -> (r: Vec<u8>)
    ensures
        r@ == sha1_of(data@),
        r@.len() == 20,
{
    sha1::sha1(data).to_vec()
}

/// The BLAKE2b digest of `data`, 32 bytes long.
pub uninterp spec fn blake2b256_of(data: Seq<u8>) -> Seq<u8>;

/// `blake2::Blake2b` with a 32-byte output and no key: the digest of `data`.
#[verifier::external_body]
pub(crate) fn blake2b256(data: &[u8]) -> (r: Vec<u8>)
    ensures
        r@ == blake2b256_of(data@),
        r@.len() == 32,
{
    let d = <blake2::Blake2b<blake2::digest::consts::U32> as blake2::Digest>::digest(data);
    d.to_vec()
}

/// The character of the standard base64 alphabet for a value below 64.
pub open spec fn base64_char(v: int) -> char {
    if v < 26 {
        (65 + v) as char
    } else if v < 52 {
        (71 + v) as char
    } else if v < 62 {
        (v - 4) as char
    } else if v == 62 {
        '+'
    } else {
        '/'
    }
}

/// Byte `i` of `data`, zero behind its end.
pub open spec fn byte_or_zero(data: Seq<u8>, i: int) -> int {
    if i < data.len() {
        data[i] as int
    } else {
        0
    }
}

/// The number that group `g` of three bytes spells.
pub open spec fn base64_group(data: Seq<u8>, g: int) -> int {
    byte_or_zero(data, 3 * g) * 65536 + byte_or_zero(data, 3 * g + 1) * 256 + byte_or_zero(
        data,
        3 * g + 2,
    )
}

/// Character `k` of group `g`: six bits of the group's number, or padding where the group
/// has no byte for them.
pub open spec fn base64_at(data: Seq<u8>, g: int, k: int) -> char {
    let n = base64_group(data, g);
    if k == 0 {
        base64_char(n / 262144)
    } else if k == 1 {
        base64_char((n / 4096) % 64)
    } else if 3 * g + k - 1 >= data.len() {
        '='
    } else if k == 2 {
        base64_char((n / 64) % 64)
    } else {
        base64_char(n % 64)
    }
}

/// Standard base64 of `data`, padded: four characters for each three bytes.
pub open spec fn base64_of(data: Seq<u8>) -> Seq<char> {
    Seq::new(((data.len() + 2) / 3 * 4) as nat, |i: int| base64_at(data, i / 4, i % 4))
}

/// The bytes whose base64 a text is.
pub open spec fn base64_bytes(text: Seq<char>) -> Option<Seq<u8>> {
    if exists|b: Seq<u8>| #[trigger] base64_of(b) == text {
        Some(choose|b: Seq<u8>| #[trigger] base64_of(b) == text)
    } else {
        None
    }
}

/// `courierust_crypto::base64::encode`: `data` in the standard alphabet, with padding.
#[verifier::external_body]
pub(crate) fn base64_encode(data: &[u8]) -> (r: String)
    ensures
        r@ == base64_of(data@),
{
    base64::encode(data)
}

/// `courierust_crypto::base64::decode_str`: the bytes that a text is the base64 of. It is
/// strict: a text that `encode` gives for no bytes is refused.
#[verifier::external_body]
pub(crate) fn base64_decode(text: &str) -> (r: Option<Vec<u8>>)
    ensures
        r is Some <==> base64_bytes(text@) is Some,
        r is Some ==> r->Some_0@ == base64_bytes(text@)->Some_0,
{
    base64::decode_str(text).ok()
}

proof fn lemma_base64_char(a: int, b: int)
    requires
        0 <= a < 64,
        0 <= b < 64,
    ensures
        base64_char(a) == base64_char(b) ==> a == b,
        base64_char(a) != '=',
{
}

/// Numbers whose four values are the same are the same.
proof fn lemma_sextets(n: int, m: int)
    requires
        0 <= n < 16777216,
        0 <= m < 16777216,
        n / 262144 == m / 262144,
        (n / 4096) % 64 == (m / 4096) % 64,
        (n / 64) % 64 == (m / 64) % 64,
        n % 64 == m % 64,
    ensures
        n == m,
{
    assert(n / 64 / 64 == n / 4096 && m / 64 / 64 == m / 4096);
    assert(n / 4096 / 64 == n / 262144 && m / 4096 / 64 == m / 262144);
    assert(n / 4096 == m / 4096);
    assert(n / 64 == m / 64);
}

/// What is read of base64 is what was written: no two byte strings have the same text.
pub proof fn lemma_base64_round_trip(data: Seq<u8>)
    ensures
        base64_bytes(base64_of(data)) == Some(data),
{
    let text = base64_of(data);
    assert(base64_of(data) == text);
    let b = choose|b: Seq<u8>| #[trigger] base64_of(b) == text;
    lemma_base64_injective(data, b);
}

proof fn lemma_base64_injective(a: Seq<u8>, b: Seq<u8>)
    requires
        base64_of(a) == base64_of(b),
    ensures
        a == b,
{
    let groups = (a.len() + 2) / 3;
    assert(base64_of(a).len() == groups * 4);
    assert(base64_of(b).len() == (b.len() + 2) / 3 * 4);
    if a.len() != b.len() {
        let g = groups - 1;
        lemma_same_at(a, b, g, 2);
        lemma_same_at(a, b, g, 3);
        lemma_padding(a, g);
        lemma_padding(b, g);
    }
    assert forall|i: int| 0 <= i < a.len() implies a[i] == b[i] by {
        let g = i / 3;
        assert(0 <= g < groups);
        lemma_same_at(a, b, g, 0);
        lemma_same_at(a, b, g, 1);
        lemma_same_at(a, b, g, 2);
        lemma_same_at(a, b, g, 3);
        lemma_group(a, b, g);
    }
    assert(a =~= b);
}

/// Equal texts agree in each place.
proof fn lemma_same_at(a: Seq<u8>, b: Seq<u8>, g: int, k: int)
    requires
        base64_of(a) == base64_of(b),
        0 <= g < (a.len() + 2) / 3,
        0 <= k < 4,
    ensures
        base64_at(a, g, k) == base64_at(b, g, k),
{
    let i = 4 * g + k;
    assert(i / 4 == g && i % 4 == k);
    assert(i < base64_of(a).len() && i < base64_of(b).len());
    assert(base64_of(a)[i] == base64_at(a, i / 4, i % 4));
    assert(base64_of(b)[i] == base64_at(b, i / 4, i % 4));
}

/// The padding of a group shows how many bytes it has.
proof fn lemma_padding(data: Seq<u8>, g: int)
    requires
        0 <= g,
    ensures
        base64_at(data, g, 2) == '=' <==> 3 * g + 1 >= data.len(),
        base64_at(data, g, 3) == '=' <==> 3 * g + 2 >= data.len(),
{
    let n = base64_group(data, g);
    lemma_base64_char((n / 64) % 64, 0);
    lemma_base64_char(n % 64, 0);
}

/// Groups with the same characters hold the same bytes.
proof fn lemma_group(a: Seq<u8>, b: Seq<u8>, g: int)
    requires
        a.len() == b.len(),
        0 <= g,
        3 * g < a.len(),
        base64_at(a, g, 0) == base64_at(b, g, 0),
        base64_at(a, g, 1) == base64_at(b, g, 1),
        base64_at(a, g, 2) == base64_at(b, g, 2),
        base64_at(a, g, 3) == base64_at(b, g, 3),
    ensures
        a[3 * g] == b[3 * g],
        3 * g + 1 < a.len() ==> a[3 * g + 1] == b[3 * g + 1],
        3 * g + 2 < a.len() ==> a[3 * g + 2] == b[3 * g + 2],
{
    let n = base64_group(a, g);
    let m = base64_group(b, g);
    assert(0 <= n < 16777216 && 0 <= m < 16777216);
    lemma_base64_char(n / 262144, m / 262144);
    lemma_base64_char((n / 4096) % 64, (m / 4096) % 64);
    if 3 * g + 1 < a.len() {
        lemma_base64_char((n / 64) % 64, (m / 64) % 64);
    } else {
        assert(n % 4096 == 0 && m % 4096 == 0);
        assert((n / 64) % 64 == 0 && (m / 64) % 64 == 0);
    }
    if 3 * g + 2 < a.len() {
        lemma_base64_char(n % 64, m % 64);
    } else {
        assert(n % 64 == 0 && m % 64 == 0);
    }
    lemma_sextets(n, m);
}

/// AES-GCM ciphertext and tag.
pub uninterp spec fn gcm_sealed(
    key: Seq<u8>,
    nonce: Seq<u8>,
    aad: Seq<u8>,
    plain: Seq<u8>,
) -> Seq<u8>;

/// The plaintext of an AES-GCM ciphertext whose tag is right.
pub uninterp spec fn gcm_opened(
    key: Seq<u8>,
    nonce: Seq<u8>,
    aad: Seq<u8>,
    sealed: Seq<u8>,
) -> Option<Seq<u8>>;

/// `courierust_tls::crypto::gcm::seal` with a key of 16 or 32 bytes: ciphertext and a
/// 16-byte tag, which `gcm::open` opens to the plaintext again.
#[verifier::external_body]
pub(crate) fn gcm_seal(key: &[u8], nonce: &[u8; 12], aad: &[u8], plain: &[u8]) -> (r: Vec<u8>)
    requires
        key@.len() == 16 || key@.len() == 32,
    ensures
        r@ == gcm_sealed(key@, nonce@, aad@, plain@),
        r@.len() == plain@.len() + 16,
        gcm_opened(key@, nonce@, aad@, r@) == Some(plain@),
{
    gcm::seal(key, nonce, aad, plain).expect("key length")
}

/// `courierust_tls::crypto::gcm::open`: the plaintext where the tag is right, 16 bytes
/// shorter than what was sealed.
#[verifier::external_body]
pub(crate) fn gcm_open(key: &[u8], nonce: &[u8; 12], aad: &[u8], sealed: &[u8]) -> (r: Option<
    Vec<u8>,
>)
    ensures
        r is Some <==> gcm_opened(key@, nonce@, aad@, sealed@) is Some,
        r is Some ==> r->Some_0@ == gcm_opened(key@, nonce@, aad@, sealed@)->Some_0 && r->Some_0@.len()
            + 16 == sealed@.len(),
{
    gcm::open(key, nonce, aad, sealed)
}

/// ChaCha20-Poly1305 ciphertext and tag.
pub uninterp spec fn chacha_sealed(
    key: Seq<u8>,
    nonce: Seq<u8>,
    aad: Seq<u8>,
    plain: Seq<u8>,
) -> Seq<u8>;

/// The plaintext of a ChaCha20-Poly1305 ciphertext whose tag is right.
pub uninterp spec fn chacha_opened(
    key: Seq<u8>,
    nonce: Seq<u8>,
    aad: Seq<u8>,
    sealed: Seq<u8>,
) -> Option<Seq<u8>>;

/// `courierust_tls::crypto::chacha20poly1305::seal`: ciphertext and a 16-byte tag,
/// which `chacha20poly1305::open` opens to the plaintext again.
#[verifier::external_body]
pub(crate) fn chacha_seal(key: &[u8; 32], nonce: &[u8; 12], aad: &[u8], plain: &[u8]) -> (r: Vec<
    u8,
>)
    ensures
        r@ == chacha_sealed(key@, nonce@, aad@, plain@),
        r@.len() == plain@.len() + 16,
        chacha_opened(key@, nonce@, aad@, r@) == Some(plain@),
{
    chacha20poly1305::seal(key, nonce, aad, plain)
}

/// `courierust_tls::crypto::chacha20poly1305::open`: the plaintext where the tag is
/// right, 16 bytes shorter than what was sealed.
#[verifier::external_body]
pub(crate) fn chacha_open(key: &[u8; 32], nonce: &[u8; 12], aad: &[u8], sealed: &[u8]) -> (r: Option<
    Vec<u8>,
>)
    ensures
        r is Some <==> chacha_opened(key@, nonce@, aad@, sealed@) is Some,
        r is Some ==> r->Some_0@ == chacha_opened(key@, nonce@, aad@, sealed@)->Some_0
            && r->Some_0@.len() + 16 == sealed@.len(),
{
    chacha20poly1305::open(key, nonce, aad, sealed)
}

/// The X25519 function of RFC 7748.
pub uninterp spec fn x25519_of(scalar: Seq<u8>, u: Seq<u8>) -> Seq<u8>;

/// `courierust_tls::crypto::x25519::x25519`: the product of the clamped scalar and the
/// point with coordinate `u`.
#[verifier::external_body]
pub(crate) fn x25519(scalar: &[u8; 32], u: &[u8; 32]) -> (r: [u8; 32])
    ensures
        r@ == x25519_of(scalar@, u@),
{
    courierust::courierust_tls::crypto::x25519::x25519(scalar, u)
}

/// The X25519 base point.
pub const BASE_POINT: [u8; 32] = [
    9, 0, 0, 0, 0, 0, 0, 0, 0, 0, 0, 0, 0, 0, 0, 0, 0, 0, 0, 0, 0, 0, 0, 0, 0, 0, 0, 0, 0, 0, 0, 0,
];

/// The X25519 public key of a private key.
pub fn x25519_public(private: &[u8; 32]) -> (r: [u8; 32])
    ensures
        r@ == x25519_of(private@, BASE_POINT@),
{
    x25519(private, &BASE_POINT)
}

/// Whether an RSA-PSS signature is right.
pub uninterp spec fn pss_valid(
    alg: HashAlg,
    n: Seq<u8>,
    e: Seq<u8>,
    salt_len: nat,
    message: Seq<u8>,
    signature: Seq<u8>,
) -> bool;

/// `courierust_tls::crypto::rsa::RsaPublicKey::verify_pss` with a fresh hash state:
/// whether `signature` is one of `message` under the key `(n, e)`.
#[verifier::external_body]
pub(crate) fn pss_verify(
    alg: HashAlg,
    n: Vec<u8>,
    e: Vec<u8>,
    salt_len: usize,
    message: &[u8],
    signature: &[u8],
) -> (r: bool)
    requires
        salt_len <= 64,
    ensures
        r == pss_valid(alg, n@, e@, salt_len as nat, message@, signature@),
{
    let key = rsa::RsaPublicKey { n, e };
    match alg {
        HashAlg::Sha256 => key.verify_pss(&mut hash::Sha256::new(), message, salt_len, signature),
        HashAlg::Sha384 => key.verify_pss(&mut hash::Sha384::new(), message, salt_len, signature),
        HashAlg::Sha512 => key.verify_pss(&mut ed25519::Sha512::new(), message, salt_len, signature),
    }
}

/// The elliptic curves in use.
#[derive(Debug, Clone, Copy, PartialEq, Eq, Structural)]
pub enum EcCurve {
    P256,
    P384,
}

/// Whether a DER-encoded ECDSA signature is right.
pub uninterp spec fn ecdsa_valid(
    curve: EcCurve,
    x: Seq<u8>,
    y: Seq<u8>,
    digest: Seq<u8>,
    signature: Seq<u8>,
) -> bool;

/// `courierust_tls::crypto::ecdsa::verify_der`: whether `signature` is one of `digest`
/// under the point `(x, y)`. It does not return where a length in the signature goes beyond
/// the address space, which [`pair_fits`] rules out.
#[verifier::external_body]
pub(crate) fn ecdsa_verify(curve: EcCurve, x: &[u8], y: &[u8], digest: &[u8], signature: &[u8]) -> (r:
    bool)
    requires
        pair_fits(signature@),
    ensures
        r == ecdsa_valid(curve, x@, y@, digest@, signature@),
{
    let curve = match curve {
        EcCurve::P256 => ecdsa::Curve::P256,
        EcCurve::P384 => ecdsa::Curve::P384,
    };
    ecdsa::verify_der(curve, x, y, digest, signature)
}

/// Whether an Ed25519 signature is right.
pub uninterp spec fn ed25519_valid(key: Seq<u8>, message: Seq<u8>, signature: Seq<u8>) -> bool;

/// `courierust_tls::crypto::ed25519::verify`: whether `signature` is one of `message`
/// under `key`.
#[verifier::external_body]
pub(crate) fn ed25519_verify(key: &[u8; 32], message: &[u8], signature: &[u8; 64]) -> (r: bool)
    ensures
        r == ed25519_valid(key@, message@, signature@),
{
    ed25519::verify(key, message, signature)
}

/// `getrandom::fill`: bytes from the platform's entropy source, or the text of the error.
/// Nothing is promised of the bytes.
#[verifier::external_body]
pub(crate) fn os_random(buf: &mut [u8]) -> (r: core::result::Result<(), String>)
    ensures
        final(buf)@.len() == old(buf)@.len(),
{
    getrandom::fill(buf).map_err(|e| e.to_string())
}

/// `courierust_tls::crypto::rng::fill_random` on a buffer of zeros: bytes from the
/// platform's entropy source. Nothing is promised of them.
#[verifier::external_body]
pub(crate) fn fill_random(buf: &mut [u8]) -> (ok: bool)
    ensures
        final(buf)@.len() == old(buf)@.len(),
{
    rng::fill_random(buf)
}

} // verus!
