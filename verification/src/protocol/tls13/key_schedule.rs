//! The TLS 1.3 key schedule (RFC 8446 section 7.1): labeled HKDF and traffic keys.

use super::codec::{known_suite, suite_hash_len, suite_key_len, SUITE_AES_128, SUITE_AES_256, SUITE_CHACHA};
use super::{Result, Tls13Error, TlsFault};
use crate::crypto::{
    chacha_open, chacha_opened, chacha_seal, chacha_sealed, digest, digest_len, digest_of, gcm_open,
    gcm_opened, gcm_seal, gcm_sealed, mac, mac_of, HashAlg,
};
use crate::text::{hex_padded, owned, push_hex_padded};
use crate::wire::{array12, array16, array32, be_bytes, extend, overwrite, push_be, repeat};
use vstd::prelude::*;
use vstd::string::*;

verus! {

/// The hash of a TLS 1.3 cipher suite.
#[derive(Debug, Clone, Copy, PartialEq, Eq, Structural)]
pub enum SuiteHash {
    /// SHA-256.
    Sha256,
    /// SHA-384.
    Sha384,
}

impl SuiteHash {
    pub open spec fn alg(self) -> HashAlg {
        match self {
            SuiteHash::Sha256 => HashAlg::Sha256,
            SuiteHash::Sha384 => HashAlg::Sha384,
        }
    }

    /// The length of a digest.
    pub open spec fn size(self) -> nat {
        digest_len(self.alg())
    }

    fn to_alg(self) -> (a: HashAlg)
        ensures
            a == self.alg(),
    {
        match self {
            SuiteHash::Sha256 => HashAlg::Sha256,
            SuiteHash::Sha384 => HashAlg::Sha384,
        }
    }
}

/// The hash bound to a cipher suite.
pub open spec fn hash_for(suite: u16) -> SuiteHash {
    if suite == SUITE_AES_256 {
        SuiteHash::Sha384
    } else {
        SuiteHash::Sha256
    }
}

/// Block `k` of HKDF-Expand (RFC 5869 section 2.3), counted from one.
pub open spec fn hkdf_block(h: SuiteHash, prk: Seq<u8>, info: Seq<u8>, k: nat) -> Seq<u8>
    decreases k,
{
    if k == 0 {
        Seq::empty()
    } else {
        mac_of(
            h.alg(),
            prk,
            hkdf_block(h, prk, info, (k - 1) as nat) + info + seq![(k % 256) as u8],
        )
    }
}

/// The first `k` blocks of HKDF-Expand, one after another.
pub open spec fn hkdf_blocks(h: SuiteHash, prk: Seq<u8>, info: Seq<u8>, k: nat) -> Seq<u8>
    decreases k,
{
    if k == 0 {
        Seq::empty()
    } else {
        hkdf_blocks(h, prk, info, (k - 1) as nat) + hkdf_block(h, prk, info, k)
    }
}

/// `len` bytes of HKDF-Expand.
pub open spec fn hkdf_okm(h: SuiteHash, prk: Seq<u8>, info: Seq<u8>, len: nat) -> Seq<u8> {
    hkdf_blocks(h, prk, info, ((len + h.size() - 1) / h.size() as int) as nat).take(len as int)
}

/// The `HkdfLabel` structure.
pub open spec fn hkdf_label(len: nat, label: Seq<u8>, context: Seq<u8>) -> Seq<u8> {
    be_bytes(len, 2) + seq![((label.len() + 6) % 256) as u8] + "tls13 ".spec_bytes() + label + seq![
        (context.len() % 256) as u8,
    ] + context
}

/// HKDF-Expand-Label.
pub open spec fn labeled(
    h: SuiteHash,
    secret: Seq<u8>,
    label: Seq<u8>,
    context: Seq<u8>,
    len: nat,
) -> Seq<u8> {
    hkdf_okm(h, secret, hkdf_label(len, label, context), len)
}

/// Derive-Secret.
pub open spec fn derived(h: SuiteHash, secret: Seq<u8>, label: Seq<u8>, messages: Seq<u8>) -> Seq<
    u8,
> {
    labeled(h, secret, label, messages, h.size())
}

pub open spec fn zeros(n: nat) -> Seq<u8> {
    Seq::new(n, |i: int| 0u8)
}

/// The handshake secret for an ECDHE shared secret.
pub open spec fn handshake_secret_of(h: SuiteHash, ecdhe: Seq<u8>) -> Seq<u8> {
    let early = mac_of(h.alg(), zeros(h.size()), zeros(h.size()));
    mac_of(
        h.alg(),
        derived(h, early, "derived".spec_bytes(), digest_of(h.alg(), Seq::empty())),
        ecdhe,
    )
}

/// The master secret for a handshake secret.
pub open spec fn master_secret_of(h: SuiteHash, handshake_secret: Seq<u8>) -> Seq<u8> {
    mac_of(
        h.alg(),
        derived(h, handshake_secret, "derived".spec_bytes(), digest_of(h.alg(), Seq::empty())),
        zeros(h.size()),
    )
}

proof fn lemma_blocks_len(h: SuiteHash, prk: Seq<u8>, info: Seq<u8>, k: nat)
    requires
        forall|j: nat| 0 < j <= k ==> (#[trigger] hkdf_block(h, prk, info, j)).len() == h.size(),
    ensures
        hkdf_blocks(h, prk, info, k).len() == k * h.size(),
    decreases k,
{
    if k > 0 {
        lemma_blocks_len(h, prk, info, (k - 1) as nat);
        assert(k * h.size() == (k - 1) * h.size() + h.size()) by (nonlinear_arith)
            requires
                k > 0,
        ;
    } else {
        assert(k * h.size() == 0) by (nonlinear_arith)
            requires
                k == 0,
        ;
    }
}

/// `len` bytes in blocks of `size`, the last one perhaps not full.
proof fn lemma_block_count(len: int, size: int)
    requires
        len >= 0,
        size == 32 || size == 48,
    ensures
        len == 0 ==> (len + size - 1) / size == 0,
        len > 0 ==> (len + size - 1) / size == (len - 1) / size + 1,
        len <= ((len + size - 1) / size) * size,
{
    if size == 32 {
        assert((len + 32 - 1) / 32 * 32 >= len);
    } else {
        assert((len + 48 - 1) / 48 * 48 >= len);
    }
}

/// HKDF-Expand of `len` bytes.
pub fn hkdf_bytes(hash: SuiteHash, prk: &[u8], info: &[u8], len: usize) -> (r: Vec<u8>)
    requires
        len <= 0xffff_ffff,
    ensures
        r@ == hkdf_okm(hash, prk@, info@, len as nat),
        r@.len() == len,
{
    let size: usize = hash.len();
    let blocks: usize = if len == 0 {
        0
    } else {
        (len - 1) / size + 1
    };
    let ghost h = hash;
    proof {
        lemma_block_count(len as int, h.size() as int);
    }
    let mut out: Vec<u8> = Vec::new();
    let mut previous: Vec<u8> = Vec::new();
    let mut k: usize = 0;
    while k < blocks
        invariant
            k <= blocks,
            hash == h,
            previous@ == hkdf_block(h, prk@, info@, k as nat),
            out@ == hkdf_blocks(h, prk@, info@, k as nat),
            forall|j: nat|
                0 < j <= k ==> (#[trigger] hkdf_block(h, prk@, info@, j)).len() == h.size(),
        decreases blocks - k,
    {
        let mut input: Vec<u8> = Vec::new();
        extend(&mut input, &previous);
        extend(&mut input, info);
        input.push(((k + 1) % 256) as u8);
        proof {
            assert(input@ =~= hkdf_block(h, prk@, info@, k as nat) + info@ + seq![
                ((k + 1) % 256) as u8,
            ]);
        }
        previous = mac(hash.to_alg(), prk, &input);
        extend(&mut out, &previous);
        k = k + 1;
    }
    proof {
        lemma_blocks_len(h, prk@, info@, blocks as nat);
    }
    out.truncate(len);
    proof {
        assert(out@ =~= hkdf_okm(h, prk@, info@, len as nat));
    }
    out
}

/// HKDF-Expand (RFC 5869 section 2.3) with `prk` taken as the pseudorandom key. `okm`
/// is filled completely.
pub fn hkdf_expand(hash: SuiteHash, prk: &[u8], info: &[u8], okm: &mut [u8])
    requires
        old(okm)@.len() <= 0xffff_ffff,
    ensures
        final(okm)@ == hkdf_okm(hash, prk@, info@, old(okm)@.len()),
{
    let r = hkdf_bytes(hash, prk, info, okm.len());
    overwrite(okm, &r);
}

impl SuiteHash {
    /// The hash bound to `suite`.
    pub fn for_suite(suite: u16) -> (h: Self)
        ensures
            h == hash_for(suite),
    {
        if suite == SUITE_AES_256 {
            SuiteHash::Sha384
        } else {
            SuiteHash::Sha256
        }
    }

    /// Hash output length in bytes.
    pub fn len(self) -> (n: usize)
        ensures
            n == self.size(),
    {
        match self {
            SuiteHash::Sha256 => suite_hash_len(SUITE_AES_128),
            SuiteHash::Sha384 => suite_hash_len(SUITE_AES_256),
        }
    }

    /// Digest `data`.
    pub fn hash(self, data: &[u8]) -> (r: Vec<u8>)
        ensures
            r@ == digest_of(self.alg(), data@),
            r@.len() == self.size(),
    {
        digest(self.to_alg(), data)
    }

    /// HMAC over `data` with `key`.
    pub fn hmac(self, key: &[u8], data: &[u8]) -> (r: Vec<u8>)
        ensures
            r@ == mac_of(self.alg(), key@, data@),
            r@.len() == self.size(),
    {
        mac(self.to_alg(), key, data)
    }

    /// HKDF-Expand-Label of `len` bytes.
    pub fn expand_label_bytes(self, secret: &[u8], label: &[u8], context: &[u8], len: usize) -> (r:
        Vec<u8>)
        requires
            len <= 0xffff_ffff,
        ensures
            r@ == labeled(self, secret@, label@, context@, len as nat),
            r@.len() == len,
    {
        let mut info: Vec<u8> = Vec::new();
        push_be(&mut info, len as u64, 2);
        info.push(((label.len() % 256 + 6) % 256) as u8);
        extend(&mut info, "tls13 ".as_bytes());
        extend(&mut info, label);
        info.push((context.len() % 256) as u8);
        extend(&mut info, context);
        proof {
            assert((label@.len() % 256 + 6) % 256 == (label@.len() + 6) % 256);
            assert(info@ =~= hkdf_label(len as nat, label@, context@));
        }
        hkdf_bytes(self, secret, &info, len)
    }

    /// `HKDF-Expand-Label(Secret, Label, Context, Length)`, filling `out`.
    pub fn expand_label(self, secret: &[u8], label: &[u8], context: &[u8], out: &mut [u8])
        requires
            old(out)@.len() <= 0xffff_ffff,
        ensures
            final(out)@ == labeled(self, secret@, label@, context@, old(out)@.len()),
    {
        let r = self.expand_label_bytes(secret, label, context, out.len());
        overwrite(out, &r);
    }

    /// `Derive-Secret(Secret, Label, Messages)`, given the hash of the messages.
    pub fn derive_secret(self, secret: &[u8], label: &[u8], messages_hash: &[u8]) -> (r: Vec<u8>)
        ensures
            r@ == derived(self, secret@, label@, messages_hash@),
            r@.len() == self.size(),
    {
        self.expand_label_bytes(secret, label, messages_hash, self.len())
    }

    /// `HKDF-Expand-Label(Secret, "finished", "", Hash.length)`.
    pub fn finished_key(self, base_secret: &[u8]) -> (r: Vec<u8>)
        ensures
            r@ == labeled(
                self,
                base_secret@,
                "finished".spec_bytes(),
                Seq::empty(),
                self.size(),
            ),
            r@.len() == self.size(),
    {
        let none: Vec<u8> = Vec::new();
        self.expand_label_bytes(base_secret, "finished".as_bytes(), &none, self.len())
    }

    /// The next-generation traffic secret for `KeyUpdate` (RFC 8446 section 7.2).
    pub fn next_traffic_secret(self, secret: &[u8]) -> (r: Vec<u8>)
        ensures
            r@ == labeled(
                self,
                secret@,
                "traffic upd".spec_bytes(),
                Seq::empty(),
                self.size(),
            ),
            r@.len() == self.size(),
    {
        let none: Vec<u8> = Vec::new();
        self.expand_label_bytes(secret, "traffic upd".as_bytes(), &none, self.len())
    }
}

// ---------------------------------------------------------------------------
// Traffic keys
// ---------------------------------------------------------------------------

/// A direction's AEAD key.
#[derive(Clone, Copy)]
pub enum TrafficKey {
    /// `TLS_AES_128_GCM_SHA256`.
    Aes128([u8; 16]),
    /// `TLS_AES_256_GCM_SHA384`.
    Aes256([u8; 32]),
    /// `TLS_CHACHA20_POLY1305_SHA256`.
    ChaCha([u8; 32]),
}

/// A traffic key as a mathematical value: its cipher suite and its bytes.
#[verifier::ext_equal]
pub struct KeyView {
    pub suite: u16,
    pub key: Seq<u8>,
}

impl View for TrafficKey {
    type V = KeyView;

    open spec fn view(&self) -> KeyView {
        match self {
            TrafficKey::Aes128(k) => KeyView { suite: SUITE_AES_128, key: k@ },
            TrafficKey::Aes256(k) => KeyView { suite: SUITE_AES_256, key: k@ },
            TrafficKey::ChaCha(k) => KeyView { suite: SUITE_CHACHA, key: k@ },
        }
    }
}

/// Ciphertext and tag under a traffic key.
pub open spec fn sealed(key: KeyView, nonce: Seq<u8>, aad: Seq<u8>, plain: Seq<u8>) -> Seq<u8> {
    if key.suite == SUITE_CHACHA {
        chacha_sealed(key.key, nonce, aad, plain)
    } else {
        gcm_sealed(key.key, nonce, aad, plain)
    }
}

/// The plaintext under a traffic key, where the tag is right.
pub open spec fn opened(key: KeyView, nonce: Seq<u8>, aad: Seq<u8>, ct: Seq<u8>) -> Option<
    Seq<u8>,
> {
    if key.suite == SUITE_CHACHA {
        chacha_opened(key.key, nonce, aad, ct)
    } else {
        gcm_opened(key.key, nonce, aad, ct)
    }
}

/// The traffic key of a suite for a secret.
pub open spec fn traffic_key(suite: u16, h: SuiteHash, secret: Seq<u8>) -> KeyView {
    KeyView {
        suite,
        key: labeled(
            h,
            secret,
            "key".spec_bytes(),
            Seq::empty(),
            if suite == SUITE_AES_128 {
                16
            } else {
                32
            },
        ),
    }
}

/// The static IV for a secret.
pub open spec fn traffic_iv(h: SuiteHash, secret: Seq<u8>) -> Seq<u8> {
    labeled(h, secret, "iv".spec_bytes(), Seq::empty(), 12)
}

pub open spec fn no_keys_text(suite: u16) -> Seq<char> {
    "no traffic keys for cipher suite 0x"@ + hex_padded(suite as nat, 4)
}

pub open spec fn decryption_failed() -> TlsFault {
    TlsFault::Protocol("record decryption failed (bad tag or truncated record)"@)
}

impl TrafficKey {
    /// Derive the traffic key and the static IV of `suite` for `secret`.
    pub fn derive(suite: u16, hash: SuiteHash, secret: &[u8]) -> (r: Result<(Self, [u8; 12])>)
        ensures
            match r {
                Ok((key, iv)) => known_suite(suite) && key@ == traffic_key(suite, hash, secret@)
                    && iv@ == traffic_iv(hash, secret@),
                Err(e) => !known_suite(suite) && e@ == TlsFault::Unsupported(no_keys_text(suite)),
            },
    {
        let none: Vec<u8> = Vec::new();
        let iv = array12(&hash.expand_label_bytes(secret, "iv".as_bytes(), &none, 12));
        let key = hash.expand_label_bytes(secret, "key".as_bytes(), &none, suite_key_len(suite));
        if suite == SUITE_AES_128 {
            Ok((TrafficKey::Aes128(array16(&key)), iv))
        } else if suite == SUITE_AES_256 {
            Ok((TrafficKey::Aes256(array32(&key)), iv))
        } else if suite == SUITE_CHACHA {
            Ok((TrafficKey::ChaCha(array32(&key)), iv))
        } else {
            let mut m = owned("no traffic keys for cipher suite 0x");
            push_hex_padded(&mut m, suite as u64, 4);
            Err(Tls13Error::Unsupported(m))
        }
    }

    /// Seal `plaintext` with `nonce` and `aad`: ciphertext and tag, which [`Self::open`]
    /// opens again.
    pub fn seal(&self, nonce: &[u8; 12], aad: &[u8], plaintext: &[u8]) -> (r: Result<Vec<u8>>)
        ensures
            r is Ok,
            r->Ok_0@ == sealed(self@, nonce@, aad@, plaintext@),
            r->Ok_0@.len() == plaintext@.len() + 16,
            opened(self@, nonce@, aad@, r->Ok_0@) == Some(plaintext@),
    {
        Ok(
            match self {
                TrafficKey::Aes128(k) => gcm_seal(k.as_slice(), nonce, aad, plaintext),
                TrafficKey::Aes256(k) => gcm_seal(k.as_slice(), nonce, aad, plaintext),
                TrafficKey::ChaCha(k) => chacha_seal(k, nonce, aad, plaintext),
            },
        )
    }

    /// Open ciphertext and tag with `nonce` and `aad`.
    pub fn open(&self, nonce: &[u8; 12], aad: &[u8], ct: &[u8]) -> (r: Result<Vec<u8>>)
        ensures
            match opened(self@, nonce@, aad@, ct@) {
                Some(plain) => r is Ok && r->Ok_0@ == plain && plain.len() + 16 == ct@.len(),
                None => r is Err && r->Err_0@ == decryption_failed(),
            },
    {
        let out = match self {
            TrafficKey::Aes128(k) => gcm_open(k.as_slice(), nonce, aad, ct),
            TrafficKey::Aes256(k) => gcm_open(k.as_slice(), nonce, aad, ct),
            TrafficKey::ChaCha(k) => chacha_open(k, nonce, aad, ct),
        };
        match out {
            Some(p) => Ok(p),
            None => Err(super::protocol("record decryption failed (bad tag or truncated record)")),
        }
    }
}

// ---------------------------------------------------------------------------
// Secrets
// ---------------------------------------------------------------------------

/// Handshake-phase secrets.
pub struct HandshakeSecrets {
    /// Hash bound to the suite.
    pub hash: SuiteHash,
    /// `client_handshake_traffic_secret`.
    pub client_hs_traffic: Vec<u8>,
    /// `server_handshake_traffic_secret`.
    pub server_hs_traffic: Vec<u8>,
    /// `handshake_secret`, kept for the master secret.
    pub handshake_secret: Vec<u8>,
}

/// Application-phase traffic secrets.
pub struct AppSecrets {
    /// `client_application_traffic_secret_0`.
    pub client_app_traffic: Vec<u8>,
    /// `server_application_traffic_secret_0`.
    pub server_app_traffic: Vec<u8>,
}

impl HandshakeSecrets {
    /// Run the key schedule from the ECDHE shared secret to the handshake traffic
    /// secrets, given the transcript hash up to the `ServerHello`.
    pub fn new(suite: u16, ecdhe: &[u8], transcript_hash_ch_sh: &[u8]) -> (s: Self)
        ensures
            s.hash == hash_for(suite),
            s.handshake_secret@ == handshake_secret_of(hash_for(suite), ecdhe@),
            s.client_hs_traffic@ == derived(
                hash_for(suite),
                handshake_secret_of(hash_for(suite), ecdhe@),
                "c hs traffic".spec_bytes(),
                transcript_hash_ch_sh@,
            ),
            s.server_hs_traffic@ == derived(
                hash_for(suite),
                handshake_secret_of(hash_for(suite), ecdhe@),
                "s hs traffic".spec_bytes(),
                transcript_hash_ch_sh@,
            ),
    {
        let hash = SuiteHash::for_suite(suite);
        let zero = repeat(0, hash.len());
        let none: Vec<u8> = Vec::new();
        proof {
            assert(zero@ =~= zeros(hash.size()));
        }
        let early_secret = hash.hmac(&zero, &zero);
        let empty_hash = hash.hash(&none);
        let derived = hash.derive_secret(&early_secret, "derived".as_bytes(), &empty_hash);
        let handshake_secret = hash.hmac(&derived, ecdhe);
        let client_hs_traffic = hash.derive_secret(
            &handshake_secret,
            "c hs traffic".as_bytes(),
            transcript_hash_ch_sh,
        );
        let server_hs_traffic = hash.derive_secret(
            &handshake_secret,
            "s hs traffic".as_bytes(),
            transcript_hash_ch_sh,
        );
        HandshakeSecrets { hash, client_hs_traffic, server_hs_traffic, handshake_secret }
    }

    /// Run the rest of the schedule, given the transcript hash up to the server's
    /// `Finished`.
    pub fn application(&self, transcript_hash_up_to_fin: &[u8]) -> (s: AppSecrets)
        ensures
            s.client_app_traffic@ == derived(
                self.hash,
                master_secret_of(self.hash, self.handshake_secret@),
                "c ap traffic".spec_bytes(),
                transcript_hash_up_to_fin@,
            ),
            s.server_app_traffic@ == derived(
                self.hash,
                master_secret_of(self.hash, self.handshake_secret@),
                "s ap traffic".spec_bytes(),
                transcript_hash_up_to_fin@,
            ),
    {
        let zero = repeat(0, self.hash.len());
        let none: Vec<u8> = Vec::new();
        proof {
            assert(zero@ =~= zeros(self.hash.size()));
        }
        let empty_hash = self.hash.hash(&none);
        let derived = self.hash.derive_secret(
            &self.handshake_secret,
            "derived".as_bytes(),
            &empty_hash,
        );
        let master_secret = self.hash.hmac(&derived, &zero);
        let client_app_traffic = self.hash.derive_secret(
            &master_secret,
            "c ap traffic".as_bytes(),
            transcript_hash_up_to_fin,
        );
        let server_app_traffic = self.hash.derive_secret(
            &master_secret,
            "s ap traffic".as_bytes(),
            transcript_hash_up_to_fin,
        );
        AppSecrets { client_app_traffic, server_app_traffic }
    }
}

} // verus!
