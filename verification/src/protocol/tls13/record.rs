//! TLS 1.3 record protection (RFC 8446 section 5).
//!
//! The nonce of a record is the static IV with the record's sequence number added
//! to its last eight bytes by exclusive or; the associated data is the record's
//! header. Each direction counts its records, from zero after each change of keys.

use super::key_schedule::{opened, sealed, KeyView, TrafficKey};
use super::{protocol, Result, Tls13Error, TlsFault};
use crate::text::{decimal, hex_padded, owned, push_decimal, push_hex_padded};
use crate::wire::{
    be_bytes, be_value, copy_range, extend, lemma_be_bytes_len, lemma_be_round_trip,
    lemma_be_value_bytes, lemma_pow256, pow256, push_be, read_be,
};
use vstd::prelude::*;
use vstd::string::*;

verus! {

/// `change_cipher_spec`.
pub const CONTENT_CHANGE_CIPHER_SPEC: u8 = 20;

/// `alert`.
pub const CONTENT_ALERT: u8 = 21;

/// `handshake`.
pub const CONTENT_HANDSHAKE: u8 = 22;

/// `application_data`.
pub const CONTENT_APPLICATION_DATA: u8 = 23;

/// AEAD tag length of every suite.
pub const TAG_LEN: usize = 16;

/// The longest plaintext of a record.
pub const MAX_PLAINTEXT: usize = 16384;

/// The longest ciphertext of a record.
pub const MAX_CIPHERTEXT: usize = 16640;

/// Warning alert level.
pub const ALERT_WARNING: u8 = 1;

/// Fatal alert level.
pub const ALERT_FATAL: u8 = 2;

/// The header of a record of content type `t` and length `n`.
pub open spec fn header_bytes(t: u8, n: nat) -> Seq<u8> {
    seq![t, 3u8, 3u8] + be_bytes(n, 2)
}

/// Build an unprotected record.
pub fn plaintext_record(content_type: u8, payload: &[u8]) -> (r: Vec<u8>)
    ensures
        r@ == header_bytes(content_type, payload@.len()) + payload@,
{
    let mut out: Vec<u8> = Vec::new();
    out.push(content_type);
    out.push(0x03);
    out.push(0x03);
    push_be(&mut out, payload.len() as u64, 2);
    extend(&mut out, payload);
    proof {
        assert(out@ =~= header_bytes(content_type, payload@.len()) + payload@);
    }
    out
}

/// The content type and the length that a record header announces.
pub open spec fn header_at(h: Seq<u8>) -> core::result::Result<(u8, nat), TlsFault> {
    if h.len() < 5 {
        Err(TlsFault::Protocol("truncated record header"@))
    } else if h[1] != 3 || h[2] > 4 {
        Err(
            TlsFault::Protocol(
                "unsupported record version 0x"@ + hex_padded(h[1] as nat, 2) + hex_padded(
                    h[2] as nat,
                    2,
                ),
            ),
        )
    } else if be_value(h.subrange(3, 5)) > MAX_CIPHERTEXT {
        Err(
            TlsFault::Protocol(
                "record length "@ + decimal(be_value(h.subrange(3, 5))) + " exceeds the maximum"@,
            ),
        )
    } else {
        Ok((h[0], be_value(h.subrange(3, 5))))
    }
}

/// Parse a five-byte record header into content type and length.
pub fn parse_record_header(header: &[u8]) -> (r: Result<(u8, usize)>)
    ensures
        match header_at(header@) {
            Ok((t, n)) => r is Ok && r->Ok_0.0 == t && r->Ok_0.1 == n,
            Err(f) => r is Err && r->Err_0@ == f,
        },
{
    if header.len() < 5 {
        return Err(protocol("truncated record header"));
    }
    if header[1] != 0x03 || header[2] > 0x04 {
        let mut m = owned("unsupported record version 0x");
        push_hex_padded(&mut m, header[1] as u64, 2);
        push_hex_padded(&mut m, header[2] as u64, 2);
        return Err(Tls13Error::Protocol(m));
    }
    proof {
        lemma_pow256();
        lemma_be_value_bytes(header@.subrange(3, 5));
    }
    let len: usize = read_be(header, 3, 2) as usize;
    if len > MAX_CIPHERTEXT {
        let mut m = owned("record length ");
        push_decimal(&mut m, len as u64);
        m.append(" exceeds the maximum");
        return Err(Tls13Error::Protocol(m));
    }
    Ok((header[0], len))
}

/// The nonce of record `seq`.
pub open spec fn nonce_of(iv: Seq<u8>, seq: u64) -> Seq<u8> {
    Seq::new(
        12,
        |i: int|
            if i < 4 {
                iv[i]
            } else {
                iv[i] ^ be_bytes(seq as nat, 8)[i - 4]
            },
    )
}

/// The position behind the last byte of `s` that is not zero.
pub open spec fn unpadded_len(s: Seq<u8>) -> nat
    decreases s.len(),
{
    if s.len() == 0 {
        0
    } else if s.last() != 0 {
        s.len()
    } else {
        unpadded_len(s.drop_last())
    }
}

/// Whether a record may carry this inner content type.
pub open spec fn inner_type_ok(t: u8) -> bool {
    20 <= t <= 23
}

/// What an opened record holds: its content, with the padding and the type taken off.
pub open spec fn inner_content(inner: Seq<u8>) -> core::result::Result<(u8, Seq<u8>), TlsFault> {
    let n = unpadded_len(inner);
    if n == 0 {
        Err(TlsFault::Protocol("record with only zero padding"@))
    } else if !inner_type_ok(inner[n - 1]) {
        Err(
            TlsFault::Protocol(
                "invalid inner content type "@ + decimal(inner[n - 1] as nat),
            ),
        )
    } else {
        Ok((inner[n - 1], inner.take(n - 1)))
    }
}

/// The text of a failed authentication.
pub open spec fn authentication_failed() -> TlsFault {
    TlsFault::Protocol(
        "record authentication failed: "@ + super::key_schedule::decryption_failed().text(),
    )
}

/// The state of one direction as a mathematical value.
#[verifier::ext_equal]
pub struct ProtectorView {
    pub key: KeyView,
    pub iv: Seq<u8>,
    pub seq: u64,
}

impl ProtectorView {
    /// The state behind the next record.
    pub open spec fn next(self) -> ProtectorView {
        ProtectorView { key: self.key, iv: self.iv, seq: next_seq(self.seq) }
    }

    /// What opening the next record's ciphertext gives, its padding still on.
    pub open spec fn opens(self, ciphertext: Seq<u8>) -> Option<Seq<u8>> {
        opened(
            self.key,
            nonce_of(self.iv, self.seq),
            header_bytes(CONTENT_APPLICATION_DATA, ciphertext.len()),
            ciphertext,
        )
    }

    /// What the next record's ciphertext holds.
    pub open spec fn content(self, ciphertext: Seq<u8>) -> core::result::Result<
        (u8, Seq<u8>),
        TlsFault,
    > {
        if ciphertext.len() > MAX_CIPHERTEXT || ciphertext.len() < 17 {
            Err(TlsFault::Protocol("ciphertext length out of range"@))
        } else {
            match self.opens(ciphertext) {
                None => Err(authentication_failed()),
                Some(inner) => inner_content(inner),
            }
        }
    }

    /// The state after reading a record: its number is used up where it authenticates.
    pub open spec fn after(self, ciphertext: Seq<u8>) -> ProtectorView {
        if 17 <= ciphertext.len() <= MAX_CIPHERTEXT && self.opens(ciphertext) is Some {
            self.next()
        } else {
            self
        }
    }

    /// The record that protects a payload.
    pub open spec fn record(self, content_type: u8, payload: Seq<u8>) -> Seq<u8> {
        let header = header_bytes(CONTENT_APPLICATION_DATA, payload.len() + 17);
        header + sealed(
            self.key,
            nonce_of(self.iv, self.seq),
            header,
            payload.push(content_type),
        )
    }
}

/// The record after `seq`.
pub open spec fn next_seq(seq: u64) -> u64 {
    if seq == u64::MAX {
        0
    } else {
        (seq + 1) as u64
    }
}

proof fn lemma_unpadded(s: Seq<u8>)
    ensures
        unpadded_len(s) <= s.len(),
        unpadded_len(s) > 0 ==> s[unpadded_len(s) - 1] != 0,
    decreases s.len(),
{
    if s.len() > 0 && s.last() == 0 {
        lemma_unpadded(s.drop_last());
    }
}

/// One direction's record protection state.
pub struct RecordProtector {
    pub key: TrafficKey,
    pub iv: [u8; 12],
    pub seq: u64,
}

impl View for RecordProtector {
    type V = ProtectorView;

    open spec fn view(&self) -> ProtectorView {
        ProtectorView { key: self.key@, iv: self.iv@, seq: self.seq }
    }
}

impl RecordProtector {
    /// A protector that starts at sequence number zero.
    pub fn new(key: TrafficKey, iv: [u8; 12]) -> (p: Self)
        ensures
            p.key == key,
            p.iv == iv,
            p.seq == 0,
    {
        RecordProtector { key, iv, seq: 0 }
    }

    /// Replace the keys. The sequence number starts over.
    pub fn rekey(&mut self, key: TrafficKey, iv: [u8; 12])
        ensures
            final(self).key == key,
            final(self).iv == iv,
            final(self).seq == 0,
    {
        self.key = key;
        self.iv = iv;
        self.seq = 0;
    }

    fn nonce(&self) -> (r: [u8; 12])
        ensures
            r@ == nonce_of(self.iv@, self.seq),
    {
        let mut seq: Vec<u8> = Vec::new();
        push_be(&mut seq, self.seq, 8);
        proof {
            lemma_be_bytes_len(self.seq as nat, 8);
            assert(seq@ =~= be_bytes(self.seq as nat, 8));
        }
        let iv = &self.iv;
        let r = [
            iv[0],
            iv[1],
            iv[2],
            iv[3],
            iv[4] ^ seq[0],
            iv[5] ^ seq[1],
            iv[6] ^ seq[2],
            iv[7] ^ seq[3],
            iv[8] ^ seq[4],
            iv[9] ^ seq[5],
            iv[10] ^ seq[6],
            iv[11] ^ seq[7],
        ];
        proof {
            assert(r@ =~= nonce_of(self.iv@, self.seq));
        }
        r
    }

    fn header(n: usize) -> (r: Vec<u8>)
        ensures
            r@ == header_bytes(CONTENT_APPLICATION_DATA, n as nat),
    {
        let mut aad: Vec<u8> = Vec::new();
        aad.push(CONTENT_APPLICATION_DATA);
        aad.push(0x03);
        aad.push(0x03);
        push_be(&mut aad, n as u64, 2);
        proof {
            assert(aad@ =~= header_bytes(CONTENT_APPLICATION_DATA, n as nat));
        }
        aad
    }

    /// Protect `payload` as content type `content_type`; returns the complete record,
    /// whose body a protector in the same state opens again.
    pub fn seal(&mut self, content_type: u8, payload: &[u8]) -> (r: Result<Vec<u8>>)
        ensures
            payload@.len() > MAX_PLAINTEXT ==> r is Err && r->Err_0@ == TlsFault::Protocol(
                "plaintext exceeds the record limit"@,
            ) && final(self)@ == old(self)@,
            payload@.len() <= MAX_PLAINTEXT ==> {
                &&& r is Ok
                &&& r->Ok_0@ == old(self)@.record(content_type, payload@)
                &&& r->Ok_0@.len() == payload@.len() + 22
                &&& final(self)@ == old(self)@.next()
                &&& old(self)@.after(r->Ok_0@.skip(5)) == old(self)@.next()
                &&& inner_type_ok(content_type) ==> old(self)@.content(r->Ok_0@.skip(5)) == Ok::<
                    (u8, Seq<u8>),
                    TlsFault,
                >((content_type, payload@))
            },
    {
        if payload.len() > MAX_PLAINTEXT {
            return Err(protocol("plaintext exceeds the record limit"));
        }
        let mut inner: Vec<u8> = Vec::new();
        extend(&mut inner, payload);
        inner.push(content_type);
        proof {
            assert(inner@ =~= payload@.push(content_type));
        }
        let aad = Self::header(inner.len() + TAG_LEN);
        let nonce = self.nonce();
        let ciphertext = match self.key.seal(&nonce, &aad, &inner) {
            Ok(c) => c,
            Err(e) => return Err(e),
        };
        self.seq = self.seq.wrapping_add(1);
        let mut out: Vec<u8> = Vec::new();
        extend(&mut out, &aad);
        extend(&mut out, &ciphertext);
        proof {
            lemma_be_bytes_len((payload@.len() + 17) as nat, 2);
            assert(out@ =~= aad@ + ciphertext@);
            assert(out@.skip(5) =~= ciphertext@);
            if inner_type_ok(content_type) {
                assert(inner@.take(payload@.len() as int) =~= payload@);
            }
        }
        Ok(out)
    }

    /// Unprotect a record's ciphertext; returns the content type and the payload.
    pub fn open(&mut self, ciphertext: &[u8]) -> (r: Result<(u8, Vec<u8>)>)
        ensures
            final(self)@ == old(self)@.after(ciphertext@),
            match old(self)@.content(ciphertext@) {
                Ok((t, payload)) => r is Ok && r->Ok_0.0 == t && r->Ok_0.1@ == payload,
                Err(f) => r is Err && r->Err_0@ == f,
            },
    {
        if ciphertext.len() > MAX_CIPHERTEXT || ciphertext.len() < TAG_LEN + 1 {
            return Err(protocol("ciphertext length out of range"));
        }
        let aad = Self::header(ciphertext.len());
        let nonce = self.nonce();
        let inner = match self.key.open(&nonce, &aad, ciphertext) {
            Ok(p) => p,
            Err(e) => {
                let mut m = owned("record authentication failed: ");
                m.append(e.message().as_str());
                return Err(Tls13Error::Protocol(m));
            },
        };
        self.seq = self.seq.wrapping_add(1);
        let mut end: usize = inner.len();
        proof {
            assert(inner@.take(end as int) =~= inner@);
        }
        while end > 0 && inner[end - 1] == 0
            invariant
                end <= inner@.len(),
                unpadded_len(inner@) == unpadded_len(inner@.take(end as int)),
            decreases end,
        {
            proof {
                assert(inner@.take(end as int).drop_last() =~= inner@.take(end - 1));
            }
            end = end - 1;
        }
        proof {
            assert(unpadded_len(inner@) == end);
        }
        if end == 0 {
            return Err(protocol("record with only zero padding"));
        }
        let content_type: u8 = inner[end - 1];
        if content_type == CONTENT_CHANGE_CIPHER_SPEC || content_type == CONTENT_ALERT
            || content_type == CONTENT_HANDSHAKE || content_type == CONTENT_APPLICATION_DATA {
            proof {
                assert(inner@.subrange(0, end - 1) =~= inner@.take(end - 1));
            }
            Ok((content_type, copy_range(&inner, 0, end - 1)))
        } else {
            let mut m = owned("invalid inner content type ");
            push_decimal(&mut m, content_type as u64);
            Err(Tls13Error::Protocol(m))
        }
    }
}

/// A record that does not open is refused as unauthenticated, whatever was changed in it,
/// and uses up no record number: the records behind it still open.
pub proof fn lemma_forged_record_refused(p: ProtectorView, ciphertext: Seq<u8>)
    requires
        17 <= ciphertext.len() <= MAX_CIPHERTEXT,
        p.opens(ciphertext) is None,
    ensures
        p.content(ciphertext) == Err::<(u8, Seq<u8>), TlsFault>(authentication_failed()),
        p.after(ciphertext) == p,
{
}

/// Two records of one key never share a nonce, so a record that comes again is opened under
/// another one. Where it does not open there, it is refused as unauthenticated and uses up
/// no record number.
pub proof fn lemma_replayed_record_refused(p: ProtectorView, seq: u64, ciphertext: Seq<u8>)
    requires
        p.iv.len() == 12,
        p.seq != seq,
        17 <= ciphertext.len() <= MAX_CIPHERTEXT,
    ensures
        nonce_of(p.iv, p.seq) != nonce_of(p.iv, seq),
        p.opens(ciphertext) is None ==> p.content(ciphertext) == Err::<(u8, Seq<u8>), TlsFault>(
            authentication_failed(),
        ) && p.after(ciphertext) == p,
{
    lemma_pow256();
    reveal_with_fuel(pow256, 9);
    lemma_be_round_trip(p.seq as nat, 8);
    lemma_be_round_trip(seq as nat, 8);
    let a = be_bytes(p.seq as nat, 8);
    let b = be_bytes(seq as nat, 8);
    if nonce_of(p.iv, p.seq) == nonce_of(p.iv, seq) {
        assert forall|i: int| 0 <= i < 8 implies a[i] == b[i] by {
            assert(nonce_of(p.iv, p.seq)[i + 4] == nonce_of(p.iv, seq)[i + 4]);
            let (v, x, y) = (p.iv[i + 4], a[i], b[i]);
            assert(v ^ x == v ^ y ==> x == y) by (bit_vector);
        }
        assert(a =~= b);
    }
}

} // verus!
