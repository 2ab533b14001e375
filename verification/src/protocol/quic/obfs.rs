//! Packet-level obfuscation for the QUIC outbounds.
//!
//! Two constructions, one per Hysteria generation. They look alike and are not: the salt
//! length, the hash and so the keystream differ.
//!
//! * [`Salamander`], Hysteria 2: an 8-byte salt, then the datagram under a keystream that
//!   repeats `BLAKE2b-256(key ++ salt)`.
//! * [`XPlus`], Hysteria 1: a 16-byte salt, then the datagram under a keystream that
//!   repeats `SHA-256(key ++ salt)`.
//!
//! The salt travels in the clear, so the receiver derives the same keystream without any
//! state. The whole datagram is wrapped, headers too.

use crate::crypto::{blake2b256, blake2b256_of, digest, digest_of, fill_random, HashAlg};
use crate::wire::{copy_range, extend, repeat};
use vstd::prelude::*;
use vstd::slice::*;

verus! {

/// Salt length prepended to every packet, in bytes.
pub const SALT_LEN: usize = 8;

/// Salt length of [`XPlus`].
pub const XPLUS_SALT_LEN: usize = 16;

/// The body under the keystream that repeats `hash`.
pub open spec fn masked(body: Seq<u8>, hash: Seq<u8>) -> Seq<u8> {
    Seq::new(body.len(), |i: int| body[i] ^ hash[i % 32])
}

/// Masking twice gives the body back.
pub proof fn lemma_masked_twice(body: Seq<u8>, hash: Seq<u8>)
    ensures
        masked(masked(body, hash), hash) == body,
{
    assert forall|i: int| 0 <= i < body.len() implies masked(masked(body, hash), hash)[i]
        == body[i] by {
        let (b, h) = (body[i], hash[i % 32]);
        assert((b ^ h) ^ h == b) by (bit_vector);
    }
    assert(masked(masked(body, hash), hash) =~= body);
}

/// A wrapped packet: the salt, then the masked payload.
pub open spec fn wrapped(salt: Seq<u8>, payload: Seq<u8>, hash: Seq<u8>) -> Seq<u8> {
    salt + masked(payload, hash)
}

fn mask_onto(out: &mut Vec<u8>, body: &[u8], hash: &Vec<u8>)
    requires
        hash@.len() == 32,
    ensures
        final(out)@ == old(out)@ + masked(body@, hash@),
{
    let mut i: usize = 0;
    proof {
        assert(out@ =~= old(out)@ + masked(body@, hash@).take(0));
    }
    while i < body.len()
        invariant
            i <= body@.len(),
            hash@.len() == 32,
            out@ == old(out)@ + masked(body@, hash@).take(i as int),
        decreases body@.len() - i,
    {
        out.push(body[i] ^ hash[i % 32]);
        proof {
            assert(out@ =~= old(out)@ + masked(body@, hash@).take(i + 1));
        }
        i = i + 1;
    }
    proof {
        assert(masked(body@, hash@).take(i as int) =~= masked(body@, hash@));
    }
}

/// Stateless obfuscator of Hysteria 2 ("Salamander"). The key is the pre-shared
/// `obfs-password`.
#[derive(Debug, Clone)]
pub struct Salamander {
    key: Vec<u8>,
}

impl View for Salamander {
    type V = Seq<u8>;

    closed spec fn view(&self) -> Seq<u8> {
        self.key@
    }
}

/// What a [`Salamander`] with this key puts on the wire for a salt and a payload.
pub open spec fn salamander_wrapped(key: Seq<u8>, salt: Seq<u8>, payload: Seq<u8>) -> Seq<u8> {
    wrapped(salt, payload, blake2b256_of(key + salt))
}

/// What a [`Salamander`] with this key makes of a packet.
pub open spec fn salamander_unwrapped(key: Seq<u8>, packet: Seq<u8>) -> Option<Seq<u8>> {
    if packet.len() < SALT_LEN {
        None
    } else {
        Some(
            masked(
                packet.skip(SALT_LEN as int),
                blake2b256_of(key + packet.take(SALT_LEN as int)),
            ),
        )
    }
}

/// A packet unwraps to the payload that was wrapped, whatever the salt.
pub proof fn lemma_salamander_identity(key: Seq<u8>, salt: Seq<u8>, payload: Seq<u8>)
    requires
        salt.len() == SALT_LEN,
    ensures
        salamander_unwrapped(key, salamander_wrapped(key, salt, payload)) == Some(payload),
{
    let packet = salamander_wrapped(key, salt, payload);
    assert(packet.take(SALT_LEN as int) =~= salt);
    assert(packet.skip(SALT_LEN as int) =~= masked(payload, blake2b256_of(key + salt)));
    lemma_masked_twice(payload, blake2b256_of(key + salt));
}

impl Salamander {
    /// Build an obfuscator from the pre-shared key.
    pub fn new(key: &[u8]) -> (r: Self)
        ensures
            r@ == key@,
    {
        Self { key: slice_to_vec(key) }
    }

    fn derive(key: &[u8], salt: &[u8]) -> (r: Vec<u8>)
        ensures
            r@ == blake2b256_of(key@ + salt@),
            r@.len() == 32,
    {
        let mut input = slice_to_vec(key);
        extend(&mut input, salt);
        blake2b256(&input)
    }

    /// Wrap `payload` under a given salt.
    pub fn wrap(&self, salt: &[u8], payload: &[u8]) -> (r: Vec<u8>)
        requires
            salt@.len() == SALT_LEN,
        ensures
            r@ == salamander_wrapped(self@, salt@, payload@),
            salamander_unwrapped(self@, r@) == Some(payload@),
    {
        let hash = Self::derive(&self.key, salt);
        let mut out = slice_to_vec(salt);
        mask_onto(&mut out, payload, &hash);
        proof {
            lemma_salamander_identity(self@, salt@, payload@);
        }
        out
    }

    /// Wrap `payload` under a fresh salt, which is the packet's first eight bytes.
    pub fn obfuscate_packet(&self, payload: &[u8]) -> (r: Vec<u8>)
        ensures
            r@.len() == SALT_LEN + payload@.len(),
            r@ == salamander_wrapped(self@, r@.take(SALT_LEN as int), payload@),
            salamander_unwrapped(self@, r@) == Some(payload@),
    {
        let mut salt = repeat(0, SALT_LEN);
        fill_random(salt.as_mut_slice());
        let r = self.wrap(&salt, payload);
        proof {
            assert(r@.take(SALT_LEN as int) =~= salt@);
        }
        r
    }

    /// Unwrap a packet; nothing where it is too short to carry the salt.
    pub fn deobfuscate_packet(&self, packet: &[u8]) -> (r: Option<Vec<u8>>)
        ensures
            r is Some <==> salamander_unwrapped(self@, packet@) is Some,
            r is Some ==> r->Some_0@ == salamander_unwrapped(self@, packet@)->Some_0,
    {
        if packet.len() < SALT_LEN {
            return None;
        }
        let salt = copy_range(packet, 0, SALT_LEN);
        let hash = Self::derive(&self.key, &salt);
        let mut out: Vec<u8> = Vec::new();
        mask_onto(&mut out, slice_subrange(packet, SALT_LEN, packet.len()), &hash);
        proof {
            assert(salt@ =~= packet@.take(SALT_LEN as int));
            assert(packet@.subrange(SALT_LEN as int, packet@.len() as int) =~= packet@.skip(
                SALT_LEN as int,
            ));
            assert(out@ =~= masked(packet@.skip(SALT_LEN as int), hash@));
        }
        Some(out)
    }
}

/// Stateless obfuscator of Hysteria 1 ("XPlus").
///
/// Salamander's shape with a longer salt and SHA-256: a datagram wrapped by one is
/// unrecoverable by the other, so the two are types of their own.
#[derive(Debug, Clone)]
pub struct XPlus {
    key: Vec<u8>,
}

impl View for XPlus {
    type V = Seq<u8>;

    closed spec fn view(&self) -> Seq<u8> {
        self.key@
    }
}

/// What an [`XPlus`] with this key puts on the wire for a salt and a payload.
pub open spec fn xplus_wrapped(key: Seq<u8>, salt: Seq<u8>, payload: Seq<u8>) -> Seq<u8> {
    wrapped(salt, payload, digest_of(HashAlg::Sha256, key + salt))
}

/// What an [`XPlus`] with this key makes of a packet.
pub open spec fn xplus_unwrapped(key: Seq<u8>, packet: Seq<u8>) -> Option<Seq<u8>> {
    if packet.len() < XPLUS_SALT_LEN {
        None
    } else {
        Some(
            masked(
                packet.skip(XPLUS_SALT_LEN as int),
                digest_of(HashAlg::Sha256, key + packet.take(XPLUS_SALT_LEN as int)),
            ),
        )
    }
}

/// A packet unwraps to the payload that was wrapped, whatever the salt.
pub proof fn lemma_xplus_identity(key: Seq<u8>, salt: Seq<u8>, payload: Seq<u8>)
    requires
        salt.len() == XPLUS_SALT_LEN,
    ensures
        xplus_unwrapped(key, xplus_wrapped(key, salt, payload)) == Some(payload),
{
    let hash = digest_of(HashAlg::Sha256, key + salt);
    let packet = xplus_wrapped(key, salt, payload);
    assert(packet.take(XPLUS_SALT_LEN as int) =~= salt);
    assert(packet.skip(XPLUS_SALT_LEN as int) =~= masked(payload, hash));
    lemma_masked_twice(payload, hash);
}

impl XPlus {
    /// Build an obfuscator from the pre-shared key.
    pub fn new(key: &[u8]) -> (r: Self)
        ensures
            r@ == key@,
    {
        Self { key: slice_to_vec(key) }
    }

    fn derive(key: &[u8], salt: &[u8]) -> (r: Vec<u8>)
        ensures
            r@ == digest_of(HashAlg::Sha256, key@ + salt@),
            r@.len() == 32,
    {
        let mut input = slice_to_vec(key);
        extend(&mut input, salt);
        digest(HashAlg::Sha256, &input)
    }

    /// Wrap `payload` under a given salt.
    pub fn wrap(&self, salt: &[u8], payload: &[u8]) -> (r: Vec<u8>)
        requires
            salt@.len() == XPLUS_SALT_LEN,
        ensures
            r@ == xplus_wrapped(self@, salt@, payload@),
            xplus_unwrapped(self@, r@) == Some(payload@),
    {
        let hash = Self::derive(&self.key, salt);
        let mut out = slice_to_vec(salt);
        mask_onto(&mut out, payload, &hash);
        proof {
            lemma_xplus_identity(self@, salt@, payload@);
        }
        out
    }

    /// Wrap `payload` under a fresh salt, which is the packet's first sixteen bytes.
    pub fn obfuscate_packet(&self, payload: &[u8]) -> (r: Vec<u8>)
        ensures
            r@.len() == XPLUS_SALT_LEN + payload@.len(),
            r@ == xplus_wrapped(self@, r@.take(XPLUS_SALT_LEN as int), payload@),
            xplus_unwrapped(self@, r@) == Some(payload@),
    {
        let mut salt = repeat(0, XPLUS_SALT_LEN);
        fill_random(salt.as_mut_slice());
        let r = self.wrap(&salt, payload);
        proof {
            assert(r@.take(XPLUS_SALT_LEN as int) =~= salt@);
        }
        r
    }

    /// Unwrap a packet; nothing where it is too short to carry the salt.
    pub fn deobfuscate_packet(&self, packet: &[u8]) -> (r: Option<Vec<u8>>)
        ensures
            r is Some <==> xplus_unwrapped(self@, packet@) is Some,
            r is Some ==> r->Some_0@ == xplus_unwrapped(self@, packet@)->Some_0,
    {
        if packet.len() < XPLUS_SALT_LEN {
            return None;
        }
        let salt = copy_range(packet, 0, XPLUS_SALT_LEN);
        let hash = Self::derive(&self.key, &salt);
        let mut out: Vec<u8> = Vec::new();
        mask_onto(&mut out, slice_subrange(packet, XPLUS_SALT_LEN, packet.len()), &hash);
        proof {
            assert(salt@ =~= packet@.take(XPLUS_SALT_LEN as int));
            assert(packet@.subrange(XPLUS_SALT_LEN as int, packet@.len() as int) =~= packet@.skip(
                XPLUS_SALT_LEN as int,
            ));
            assert(out@ =~= masked(packet@.skip(XPLUS_SALT_LEN as int), hash@));
        }
        Some(out)
    }
}

/// Either obfuscator, as the transport sees it.
#[derive(Debug, Clone)]
pub enum PacketObfs {
    /// Hysteria 2, and the `salamander` variant of Hysteria 1.
    Salamander(Salamander),
    /// Hysteria 1's default `obfs`.
    XPlus(XPlus),
}

impl PacketObfs {
    /// What this obfuscator makes of a packet.
    pub open spec fn unwrapped(&self, packet: Seq<u8>) -> Option<Seq<u8>> {
        match self {
            PacketObfs::Salamander(o) => salamander_unwrapped(o@, packet),
            PacketObfs::XPlus(o) => xplus_unwrapped(o@, packet),
        }
    }

    /// Wrap one datagram.
    pub fn obfuscate_packet(&self, payload: &[u8]) -> (r: Vec<u8>)
        ensures
            self.unwrapped(r@) == Some(payload@),
            match self {
                PacketObfs::Salamander(o) => r@ == salamander_wrapped(
                    o@,
                    r@.take(SALT_LEN as int),
                    payload@,
                ),
                PacketObfs::XPlus(o) => r@ == xplus_wrapped(
                    o@,
                    r@.take(XPLUS_SALT_LEN as int),
                    payload@,
                ),
            },
    {
        match self {
            PacketObfs::Salamander(o) => o.obfuscate_packet(payload),
            PacketObfs::XPlus(o) => o.obfuscate_packet(payload),
        }
    }

    /// Unwrap one received datagram; nothing where it cannot be one.
    pub fn deobfuscate_packet(&self, packet: &[u8]) -> (r: Option<Vec<u8>>)
        ensures
            r is Some <==> self.unwrapped(packet@) is Some,
            r is Some ==> r->Some_0@ == self.unwrapped(packet@)->Some_0,
    {
        match self {
            PacketObfs::Salamander(o) => o.deobfuscate_packet(packet),
            PacketObfs::XPlus(o) => o.deobfuscate_packet(packet),
        }
    }
}

} // verus!
