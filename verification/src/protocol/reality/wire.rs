//! The authenticated session id and the proof of the ephemeral certificate.
//!
//! The client derives `auth_key` from its ephemeral key and the server's public key,
//! fills 16 bytes with version, time and short id, and seals them with AES-256-GCM. The
//! nonce comes from the random of the `ClientHello`, the associated data is the whole
//! message with its session id still zero. The sealed bytes replace the session id. The
//! server's certificate carries `HMAC-SHA512(auth_key, public_key)` in its signature.

use super::{RealityError, RealityFault, Result};
use crate::crypto::{gcm_open, gcm_opened, gcm_seal, gcm_sealed, mac, mac_of, x25519, x25519_of, HashAlg};
use crate::protocol::tls13::key_schedule::{hkdf_bytes, hkdf_okm, zeros, SuiteHash};
use crate::protocol::tls13::record::unpadded_len;
use crate::text::{decimal, owned, push_decimal};
use crate::wire::{
    array12, array16, array32, be_bytes, be_value, copy_range, ct_eq, extend, lemma_be_bytes_len,
    lemma_be_round_trip, lemma_be_value_bytes, lemma_pow256, overwrite_at, push_be, read_be,
    repeat,
};
use vstd::prelude::*;
use vstd::slice::slice_subrange;
use vstd::string::*;

verus! {

/// Length of the session id.
pub const SESSION_ID_LEN: usize = 32;

/// Number of session-id bytes under the seal.
pub const SESSION_PLAIN_LEN: usize = 16;

/// Longest short id, in bytes.
pub const MAX_SHORT_ID_LEN: usize = 8;

/// Offset of the session id in a `ClientHello` message.
pub const SESSION_ID_OFFSET: usize = 39;

/// HKDF info of the authentication key.
pub const AUTH_KEY_INFO: &'static str = "REALITY";

/// The fields inside the sealed session id.
#[derive(Debug, Clone, Copy, PartialEq, Eq)]
pub struct SessionMeta {
    /// The version that the client claims.
    pub version: [u8; 3],
    /// Unix time in seconds.
    pub timestamp: u32,
    /// Number of bytes of the short id.
    pub short_id_len: u8,
}

/// The fields as a mathematical value.
#[verifier::ext_equal]
pub struct MetaView {
    pub version: Seq<u8>,
    pub timestamp: u32,
    pub short_id_len: u8,
}

impl View for SessionMeta {
    type V = MetaView;

    open spec fn view(&self) -> MetaView {
        MetaView {
            version: self.version@,
            timestamp: self.timestamp,
            short_id_len: self.short_id_len,
        }
    }
}

/// The 16 bytes: version, a zero, the time, the short id filled up with zeros.
pub open spec fn meta_bytes(version: Seq<u8>, timestamp: u32, short_id: Seq<u8>) -> Seq<u8> {
    version + seq![0u8] + be_bytes(timestamp as nat, 4) + short_id + zeros(
        (8 - short_id.len()) as nat,
    )
}

/// The fields in the 16 bytes. The short id ends with its last byte that is not zero.
pub open spec fn meta_of(bytes: Seq<u8>) -> MetaView {
    MetaView {
        version: bytes.take(3),
        timestamp: be_value(bytes.subrange(4, 8)) as u32,
        short_id_len: unpadded_len(bytes.subrange(8, 16)) as u8,
    }
}

pub open spec fn short_id_too_long(n: nat) -> RealityFault {
    RealityFault::Config("short id is "@ + decimal(n) + " bytes, the limit is 8"@)
}

proof fn lemma_unpadded_zeros(s: Seq<u8>, n: nat)
    ensures
        unpadded_len(s + zeros(n)) == unpadded_len(s),
        unpadded_len(s) <= s.len(),
    decreases n + s.len(),
{
    if n > 0 {
        lemma_unpadded_zeros(s, (n - 1) as nat);
        assert((s + zeros(n)).drop_last() =~= s + zeros((n - 1) as nat));
    } else {
        assert(s + zeros(0) =~= s);
        if s.len() > 0 {
            lemma_unpadded_zeros(s.drop_last(), 0);
            assert(s.drop_last() + zeros(0) =~= s.drop_last());
        }
    }
}

/// The fields survive serialization; the short id does where its last byte is not zero.
pub proof fn lemma_meta_round_trip(version: Seq<u8>, timestamp: u32, short_id: Seq<u8>)
    requires
        version.len() == 3,
        short_id.len() <= 8,
    ensures
        meta_of(meta_bytes(version, timestamp, short_id)) == (MetaView {
            version,
            timestamp,
            short_id_len: unpadded_len(short_id) as u8,
        }),
        meta_bytes(version, timestamp, short_id).len() == 16,
        meta_bytes(version, timestamp, short_id).subrange(8, 8 + unpadded_len(short_id) as int)
            == short_id.take(unpadded_len(short_id) as int),
        short_id.len() == 0 || short_id.last() != 0 ==> unpadded_len(short_id) == short_id.len(),
        unpadded_len(short_id) <= short_id.len(),
{
    let b = meta_bytes(version, timestamp, short_id);
    lemma_pow256();
    lemma_be_round_trip(timestamp as nat, 4);
    let pad = (8 - short_id.len()) as nat;
    assert(b.take(3) =~= version);
    assert(b.subrange(4, 8) =~= be_bytes(timestamp as nat, 4));
    assert(b.subrange(8, 16) =~= short_id + zeros(pad));
    lemma_unpadded_zeros(short_id, pad);
    assert(b.subrange(8, 8 + unpadded_len(short_id) as int) =~= short_id.take(
        unpadded_len(short_id) as int,
    ));
}

impl SessionMeta {
    /// Serialize the 16 bytes.
    pub fn to_bytes(&self, short_id: &[u8]) -> (r: Result<[u8; 16]>)
        ensures
            short_id@.len() <= 8 ==> r is Ok && r->Ok_0@ == meta_bytes(
                self.version@,
                self.timestamp,
                short_id@,
            ),
            short_id@.len() > 8 ==> r is Err && r->Err_0@ == short_id_too_long(short_id@.len()),
    {
        if short_id.len() > MAX_SHORT_ID_LEN {
            let mut m = owned("short id is ");
            push_decimal(&mut m, short_id.len() as u64);
            m.append(" bytes, the limit is 8");
            return Err(RealityError::Config(m));
        }
        let mut out: Vec<u8> = Vec::new();
        extend(&mut out, self.version.as_slice());
        out.push(0);
        push_be(&mut out, self.timestamp as u64, 4);
        extend(&mut out, short_id);
        extend(&mut out, &repeat(0, 8 - short_id.len()));
        proof {
            lemma_be_bytes_len(self.timestamp as nat, 4);
            assert(out@ =~= meta_bytes(self.version@, self.timestamp, short_id@));
        }
        Ok(array16(&out))
    }

    /// Read the 16 bytes.
    pub fn from_bytes(bytes: &[u8; 16]) -> (r: Self)
        ensures
            r@ == meta_of(bytes@),
            r.short_id_len <= 8,
    {
        let version = [bytes[0], bytes[1], bytes[2]];
        proof {
            lemma_pow256();
            lemma_be_value_bytes(bytes@.subrange(4, 8));
            assert(version@ =~= bytes@.take(3));
        }
        let timestamp: u32 = read_be(bytes.as_slice(), 4, 4) as u32;
        let mut n: usize = 8;
        let ghost tail = bytes@.subrange(8, 16);
        proof {
            assert(tail.take(8) =~= tail);
        }
        while n > 0 && bytes[8 + n - 1] == 0
            invariant
                n <= 8,
                tail == bytes@.subrange(8, 16),
                unpadded_len(tail) == unpadded_len(tail.take(n as int)),
            decreases n,
        {
            proof {
                assert(tail.take(n as int).last() == bytes@[8 + n - 1]);
                assert(tail.take(n as int).drop_last() =~= tail.take(n - 1));
            }
            n = n - 1;
        }
        proof {
            if n > 0 {
                assert(tail.take(n as int).last() == bytes@[8 + n - 1]);
            }
            assert(unpadded_len(tail) == n);
        }
        SessionMeta { version, timestamp, short_id_len: n as u8 }
    }
}

/// The authentication key: HKDF-SHA256 of the shared secret, salted with the first 20
/// bytes of the random.
pub open spec fn auth_key_of(shared: Seq<u8>, random: Seq<u8>) -> Seq<u8> {
    hkdf_okm(
        SuiteHash::Sha256,
        mac_of(HashAlg::Sha256, random.take(20), shared),
        AUTH_KEY_INFO.spec_bytes(),
        32,
    )
}

/// Derive the authentication key.
pub fn derive_auth_key(shared: &[u8; 32], client_random: &[u8; 32]) -> (r: [u8; 32])
    ensures
        r@ == auth_key_of(shared@, client_random@),
{
    let salt = copy_range(client_random.as_slice(), 0, 20);
    proof {
        assert(salt@ =~= client_random@.take(20));
    }
    let prk = mac(HashAlg::Sha256, &salt, shared.as_slice());
    let okm = hkdf_bytes(SuiteHash::Sha256, &prk, AUTH_KEY_INFO.as_bytes(), 32);
    array32(&okm)
}

/// The client's secret shared with the server.
pub fn client_shared_secret(client_private: &[u8; 32], server_public: &[u8; 32]) -> (r: [u8; 32])
    ensures
        r@ == x25519_of(client_private@, server_public@),
{
    x25519(client_private, server_public)
}

/// A message with its session id replaced.
pub open spec fn with_session_id(hello: Seq<u8>, id: Seq<u8>) -> Seq<u8> {
    hello.take(39) + id + hello.skip(71)
}

pub open spec fn hello_too_short() -> RealityFault {
    RealityFault::Wire("ClientHello is too short to hold a 32-byte session id"@)
}

/// The message with the sealed session id.
pub open spec fn sealed_hello(key: Seq<u8>, random: Seq<u8>, hello: Seq<u8>, plain: Seq<u8>) -> Seq<
    u8,
> {
    with_session_id(
        hello,
        gcm_sealed(key, random.subrange(20, 32), with_session_id(hello, zeros(32)), plain),
    )
}

/// What the session id of a received message says.
pub open spec fn unsealed(key: Seq<u8>, random: Seq<u8>, hello: Seq<u8>) -> core::result::Result<
    (MetaView, Seq<u8>),
    RealityFault,
> {
    if hello.len() < 71 {
        Err(hello_too_short())
    } else {
        match gcm_opened(
            key,
            random.subrange(20, 32),
            with_session_id(hello, zeros(32)),
            hello.subrange(39, 71),
        ) {
            None => Err(RealityFault::Unauthenticated),
            Some(plain) => Ok(
                (meta_of(plain), plain.subrange(8, 8 + meta_of(plain).short_id_len)),
            ),
        }
    }
}

/// Seal the session id into `client_hello` in place.
///
/// The result unseals under the same key and random to the same fields, and to the short
/// id without zeros at its end.
pub fn seal_session_id(
    auth_key: &[u8; 32],
    client_random: &[u8; 32],
    client_hello: &mut [u8],
    meta: &SessionMeta,
    short_id: &[u8],
) -> (r: Result<()>)
    ensures
        final(client_hello)@.len() == old(client_hello)@.len(),
        old(client_hello)@.len() < 71 ==> r is Err && r->Err_0@ == hello_too_short()
            && final(client_hello)@ == old(client_hello)@,
        old(client_hello)@.len() >= 71 && short_id@.len() > 8 ==> r is Err && r->Err_0@
            == short_id_too_long(short_id@.len()) && final(client_hello)@ == old(client_hello)@,
        old(client_hello)@.len() >= 71 && short_id@.len() <= 8 ==> {
            &&& r is Ok
            &&& final(client_hello)@ == sealed_hello(
                auth_key@,
                client_random@,
                old(client_hello)@,
                meta_bytes(meta.version@, meta.timestamp, short_id@),
            )
            &&& unsealed(auth_key@, client_random@, final(client_hello)@) == Ok::<
                (MetaView, Seq<u8>),
                RealityFault,
            >(
                (
                    MetaView {
                        version: meta.version@,
                        timestamp: meta.timestamp,
                        short_id_len: unpadded_len(short_id@) as u8,
                    },
                    short_id@.take(unpadded_len(short_id@) as int),
                ),
            )
        },
{
    if client_hello.len() < SESSION_ID_OFFSET + SESSION_ID_LEN {
        return Err(
            RealityError::Wire(owned("ClientHello is too short to hold a 32-byte session id")),
        );
    }
    let ghost hello = client_hello@;
    let plain = match meta.to_bytes(short_id) {
        Ok(p) => p,
        Err(e) => return Err(e),
    };
    let zero = repeat(0, SESSION_ID_LEN);
    proof {
        assert(zero@ =~= zeros(32));
    }
    overwrite_at(client_hello, SESSION_ID_OFFSET, &zero);
    let ghost blank = client_hello@;
    proof {
        assert(blank =~= with_session_id(hello, zeros(32)));
    }
    let nonce = array12(slice_subrange(client_random.as_slice(), 20, 32));
    let sealed = gcm_seal(auth_key.as_slice(), &nonce, client_hello, plain.as_slice());
    overwrite_at(client_hello, SESSION_ID_OFFSET, &sealed);
    proof {
        assert(client_hello@ =~= with_session_id(hello, sealed@));
        assert(with_session_id(client_hello@, zeros(32)) =~= blank);
        assert(client_hello@.subrange(39, 71) =~= sealed@);
        lemma_meta_round_trip(meta.version@, meta.timestamp, short_id@);
    }
    Ok(())
}

/// Unseal the session id of a received message, which is left as it was.
pub fn unseal_session_id(
    auth_key: &[u8; 32],
    client_random: &[u8; 32],
    client_hello: &mut [u8],
) -> (r: Result<(SessionMeta, Vec<u8>)>)
    ensures
        final(client_hello)@ == old(client_hello)@,
        match unsealed(auth_key@, client_random@, old(client_hello)@) {
            Ok((meta, short_id)) => r is Ok && r->Ok_0.0@ == meta && r->Ok_0.1@ == short_id,
            Err(f) => r is Err && r->Err_0@ == f,
        },
{
    if client_hello.len() < SESSION_ID_OFFSET + SESSION_ID_LEN {
        return Err(
            RealityError::Wire(owned("ClientHello is too short to hold a 32-byte session id")),
        );
    }
    let ghost hello = client_hello@;
    let sealed = copy_range(client_hello, SESSION_ID_OFFSET, SESSION_ID_OFFSET + SESSION_ID_LEN);
    let zero = repeat(0, SESSION_ID_LEN);
    proof {
        assert(zero@ =~= zeros(32));
    }
    overwrite_at(client_hello, SESSION_ID_OFFSET, &zero);
    proof {
        assert(client_hello@ =~= with_session_id(hello, zeros(32)));
    }
    let nonce = array12(slice_subrange(client_random.as_slice(), 20, 32));
    let opened = gcm_open(auth_key.as_slice(), &nonce, client_hello, &sealed);
    overwrite_at(client_hello, SESSION_ID_OFFSET, &sealed);
    proof {
        assert(client_hello@ =~= hello);
    }
    let plain = match opened {
        Some(p) => p,
        None => return Err(RealityError::Unauthenticated),
    };
    let bytes = array16(&plain);
    let meta = SessionMeta::from_bytes(&bytes);
    let short_id = copy_range(bytes.as_slice(), 8, 8 + meta.short_id_len as usize);
    Ok((meta, short_id))
}

/// Every byte of a message is under the seal: a message that differs from another one in any
/// byte gives the cipher other associated data or another sealed session id. Where that does
/// not open, the answer is that the message is unauthenticated.
pub proof fn lemma_changed_hello_refused(
    key: Seq<u8>,
    random: Seq<u8>,
    hello: Seq<u8>,
    changed: Seq<u8>,
)
    requires
        hello.len() >= 71,
        changed.len() >= 71,
        changed != hello,
    ensures
        with_session_id(changed, zeros(32)) != with_session_id(hello, zeros(32))
            || changed.subrange(39, 71) != hello.subrange(39, 71),
        gcm_opened(
            key,
            random.subrange(20, 32),
            with_session_id(changed, zeros(32)),
            changed.subrange(39, 71),
        ) is None ==> unsealed(key, random, changed) == Err::<(MetaView, Seq<u8>), RealityFault>(
            RealityFault::Unauthenticated,
        ),
{
    let a = with_session_id(changed, zeros(32));
    let b = with_session_id(hello, zeros(32));
    assert(zeros(32).len() == 32);
    assert(a.len() == changed.len() && b.len() == hello.len());
    if a == b && changed.subrange(39, 71) == hello.subrange(39, 71) {
        assert forall|i: int| 0 <= i < hello.len() implies changed[i] == hello[i] by {
            if 39 <= i < 71 {
                assert(changed.subrange(39, 71)[i - 39] == hello.subrange(39, 71)[i - 39]);
            } else {
                assert(a[i] == changed[i] && b[i] == hello[i]);
            }
        }
        assert(changed =~= hello);
    }
}

/// Whether a certificate carries the proof of an authentication key.
pub open spec fn proves(auth_key: Seq<u8>, key: Seq<u8>, signature: Seq<u8>) -> bool {
    key.len() == 32 && signature == mac_of(HashAlg::Sha512, auth_key, key)
}

/// Check the ephemeral certificate: a 32-byte key, and its HMAC in the signature field.
pub fn verify_ephemeral_certificate(
    auth_key: &[u8; 32],
    subject_public_key: &[u8],
    certificate_signature: &[u8],
) -> (r: bool)
    ensures
        r == proves(auth_key@, subject_public_key@, certificate_signature@),
{
    if subject_public_key.len() != 32 {
        return false;
    }
    let expected = mac(HashAlg::Sha512, auth_key.as_slice(), subject_public_key);
    ct_eq(&expected, certificate_signature)
}

} // verus!
