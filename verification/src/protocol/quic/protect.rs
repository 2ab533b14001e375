//! Packet protection and packet headers: calls into the crate that implements them.

use super::params::{varint_at, varint_bytes, VARINT_LIMIT};
use crate::protocol::tls13::codec::{known_suite, SUITE_AES_256};
use crate::wire::be_bytes;
use courierust::courierust_quic::{packet, protection, varint};
use vstd::prelude::*;
use vstd::string::*;

verus! {

/// What a packet key is derived from.
#[derive(Debug)]
pub enum PacketKey {
    /// The Initial keys of a destination connection identifier, for either direction.
    Initial { dcid: Vec<u8>, server: bool },
    /// A TLS traffic secret under a cipher suite.
    Traffic { suite: u16, secret: Vec<u8> },
}

/// A packet key as a mathematical value.
#[verifier::ext_equal]
pub enum PacketKeyView {
    Initial(Seq<u8>, bool),
    Traffic(u16, Seq<u8>),
}

impl View for PacketKey {
    type V = PacketKeyView;

    open spec fn view(&self) -> PacketKeyView {
        match self {
            PacketKey::Initial { dcid, server } => PacketKeyView::Initial(dcid@, *server),
            PacketKey::Traffic { suite, secret } => PacketKeyView::Traffic(*suite, secret@),
        }
    }
}

impl PacketKeyView {
    /// Whether keys can be derived: an identifier of 1 to 20 bytes, or a secret of the
    /// suite's hash length.
    pub open spec fn usable(self) -> bool {
        match self {
            PacketKeyView::Initial(dcid, server) => 1 <= dcid.len() <= 20,
            PacketKeyView::Traffic(suite, secret) => known_suite(suite) && secret.len() == if suite
                == SUITE_AES_256 {
                48int
            } else {
                32
            },
        }
    }
}

impl PacketKey {
    /// The same key in a value of its own.
    pub fn copy(&self) -> (r: Self)
        ensures
            r@ == self@,
    {
        match self {
            PacketKey::Initial { dcid, server } => PacketKey::Initial {
                dcid: dcid.clone(),
                server: *server,
            },
            PacketKey::Traffic { suite, secret } => PacketKey::Traffic {
                suite: *suite,
                secret: secret.clone(),
            },
        }
    }
}

/// A packet's payload under packet protection.
pub uninterp spec fn packet_sealed(
    key: PacketKeyView,
    pn: u64,
    header: Seq<u8>,
    plain: Seq<u8>,
) -> Seq<u8>;

/// The payload of a protected packet whose tag is right.
pub uninterp spec fn packet_opened(
    key: PacketKeyView,
    pn: u64,
    header: Seq<u8>,
    sealed: Seq<u8>,
) -> Option<Seq<u8>>;

/// `courierust_quic::protection::PacketKey::seal` with the key that `initial` or
/// `from_secret` derives: ciphertext and a 16-byte tag, which `open` with the same key,
/// packet number and header opens to the payload again.
#[verifier::external_body]
pub(crate) fn seal(key: &PacketKey, pn: u64, header: &[u8], plain: &[u8]) -> (r: Vec<u8>)
    requires
        key@.usable(),
    ensures
        r@ == packet_sealed(key@, pn, header@, plain@),
        r@.len() == plain@.len() + 16,
        packet_opened(key@, pn, header@, r@) == Some(plain@),
{
    let key = match key {
        PacketKey::Initial { dcid, server } => protection::PacketKey::initial(dcid, *server),
        PacketKey::Traffic { suite, secret } => protection::PacketKey::from_secret(*suite, secret),
    };
    key.expect("usable key").seal(pn, header, plain).expect("usable key")
}

/// `courierust_quic::protection::PacketKey::open` with the derived key: the payload where
/// the tag is right, 16 bytes shorter than what was sealed.
#[verifier::external_body]
pub(crate) fn open(key: &PacketKey, pn: u64, header: &[u8], sealed: &[u8]) -> (r: Option<Vec<u8>>)
    requires
        key@.usable(),
    ensures
        r is Some <==> packet_opened(key@, pn, header@, sealed@) is Some,
        r is Some ==> r->Some_0@ == packet_opened(key@, pn, header@, sealed@)->Some_0
            && r->Some_0@.len() + 16 == sealed@.len(),
{
    let key = match key {
        PacketKey::Initial { dcid, server } => protection::PacketKey::initial(dcid, *server),
        PacketKey::Traffic { suite, secret } => protection::PacketKey::from_secret(*suite, secret),
    };
    key.expect("usable key").open(pn, header, sealed).ok()
}

/// A packet under header protection.
pub uninterp spec fn header_protected(
    key: PacketKeyView,
    packet: Seq<u8>,
    pn_offset: nat,
    long: bool,
) -> Seq<u8>;

/// A packet with header protection taken off and its packet number length, or why the
/// header is refused.
pub uninterp spec fn header_opened(
    key: PacketKeyView,
    packet: Seq<u8>,
    pn_offset: nat,
    long: bool,
) -> core::result::Result<(Seq<u8>, nat), Seq<char>>;

/// The reserved bits of a first byte are zero and the fixed bit is one.
pub open spec fn plain_first_byte(first: u8, long: bool) -> bool {
    first & 0x40 != 0 && first & (if long {
        0x0cu8
    } else {
        0x18u8
    }) == 0
}

/// `courierust_quic::protection::PacketKey::protect_header` with the derived key, on a
/// packet that holds the sample: it changes the first byte and the packet number alone,
/// and `unprotect_header` with the same key gives the packet back where the first byte is
/// a valid one.
#[verifier::external_body]
pub(crate) fn protect_header(key: &PacketKey, packet: &mut [u8], pn_offset: usize, long: bool)
    requires
        key@.usable(),
        1 <= pn_offset,
        pn_offset + 20 <= old(packet)@.len(),
    ensures
        final(packet)@ == header_protected(key@, old(packet)@, pn_offset as nat, long),
        final(packet)@.len() == old(packet)@.len(),
        plain_first_byte(old(packet)@[0], long) ==> header_opened(
            key@,
            final(packet)@,
            pn_offset as nat,
            long,
        ) == Ok::<_, Seq<char>>((old(packet)@, (old(packet)@[0] % 4 + 1) as nat)),
{
    let key = match key {
        PacketKey::Initial { dcid, server } => protection::PacketKey::initial(dcid, *server),
        PacketKey::Traffic { suite, secret } => protection::PacketKey::from_secret(*suite, secret),
    };
    key.expect("usable key").protect_header(packet, pn_offset, long).expect("whole sample")
}

/// `courierust_quic::protection::PacketKey::unprotect_header` with the derived key, on a
/// packet that holds the sample: the packet as it was, and its packet number length, or
/// the text of the error.
#[verifier::external_body]
pub(crate) fn unprotect_header(key: &PacketKey, packet: &mut [u8], pn_offset: usize, long: bool) -> (r:
    core::result::Result<usize, String>)
    requires
        key@.usable(),
        1 <= pn_offset,
        pn_offset + 20 <= old(packet)@.len(),
    ensures
        final(packet)@.len() == old(packet)@.len(),
        match header_opened(key@, old(packet)@, pn_offset as nat, long) {
            Ok((plain, n)) => r is Ok && r->Ok_0 == n && final(packet)@ == plain && 1 <= n <= 4,
            Err(m) => r is Err && r->Err_0@ == m,
        },
{
    let key = match key {
        PacketKey::Initial { dcid, server } => protection::PacketKey::initial(dcid, *server),
        PacketKey::Traffic { suite, secret } => protection::PacketKey::from_secret(*suite, secret),
    };
    key.expect("usable key").unprotect_header(packet, pn_offset, long).map_err(|e| e.to_string())
}

/// The parts of a packet header that a receiver reads.
#[derive(Debug)]
pub struct Parsed {
    /// Source connection identifier of a long header.
    pub scid: Option<Vec<u8>>,
    /// Full packet number.
    pub pn: u64,
    /// Length of the packet number on the wire.
    pub pn_len: usize,
}

/// A packet header as a mathematical value.
#[verifier::ext_equal]
pub struct ParsedView {
    pub scid: Option<Seq<u8>>,
    pub pn: u64,
    pub pn_len: nat,
}

impl View for Parsed {
    type V = ParsedView;

    open spec fn view(&self) -> ParsedView {
        ParsedView {
            scid: match self.scid {
                Some(id) => Some(id@),
                None => None,
            },
            pn: self.pn,
            pn_len: self.pn_len as nat,
        }
    }
}

/// What an unprotected packet's header says, given the packet number to expect and the
/// length of the local connection identifiers, or why it is malformed.
pub uninterp spec fn parsed_of(packet: Seq<u8>, expected: u64, cid_len: nat) -> core::result::Result<
    ParsedView,
    Seq<char>,
>;

/// `courierust_quic::packet::parse`: source connection identifier, packet number and its
/// length (1 to 4), or the text of the error.
#[verifier::external_body]
pub(crate) fn parse_packet(buf: &[u8], expected: u64, cid_len: usize) -> (r: core::result::Result<
    Parsed,
    String,
>)
    ensures
        match parsed_of(buf@, expected, cid_len as nat) {
            Ok(p) => r is Ok && r->Ok_0@ == p && 1 <= p.pn_len <= 4,
            Err(m) => r is Err && r->Err_0@ == m,
        },
{
    match packet::parse(buf, expected, cid_len) {
        Ok(packet::Packet::Long(h)) => Ok(
            Parsed { scid: Some(h.scid), pn: h.packet_number, pn_len: h.pn_len },
        ),
        Ok(packet::Packet::Short(h)) => Ok(
            Parsed { scid: None, pn: h.packet_number, pn_len: h.pn_len },
        ),
        Err(e) => Err(e.to_string()),
    }
}

/// A long header of version 1 up to and with the packet number. `payload_len` is what the
/// length field says; it counts the packet number too.
pub open spec fn long_header(
    initial: bool,
    dcid: Seq<u8>,
    scid: Seq<u8>,
    pn: u64,
    pn_len: nat,
    token: Seq<u8>,
    payload_len: u64,
) -> Option<Seq<u8>> {
    if pn_len < 1 || pn_len > 4 || dcid.len() > 20 || scid.len() > 20 || token.len() >= VARINT_LIMIT
        || payload_len >= VARINT_LIMIT || payload_len < pn_len {
        None
    } else {
        Some(
            seq![
                (pn_len - 1 + if initial {
                    0xc0int
                } else {
                    0xe0
                }) as u8,
            ] + be_bytes(1, 4) + seq![dcid.len() as u8] + dcid + seq![scid.len() as u8] + scid + (
            if initial {
                varint_bytes(token.len() as u64) + token
            } else {
                Seq::empty()
            }) + varint_bytes(payload_len) + be_bytes(pn as nat, pn_len),
        )
    }
}

/// `courierust_quic::packet::encode_long` for an Initial or a Handshake packet: the header,
/// where the lengths are in range and the payload holds the packet number.
#[verifier::external_body]
pub(crate) fn encode_long(
    initial: bool,
    dcid: &[u8],
    scid: &[u8],
    pn: u64,
    pn_len: usize,
    token: &[u8],
    payload_len: u64,
) -> (r: Option<Vec<u8>>)
    ensures
        match long_header(initial, dcid@, scid@, pn, pn_len as nat, token@, payload_len) {
            Some(h) => r is Some && r->Some_0@ == h,
            None => r is None,
        },
{
    let kind = match initial {
        true => packet::LongType::Initial,
        false => packet::LongType::Handshake,
    };
    packet::encode_long(kind, dcid, scid, pn, pn_len, token, payload_len).ok()
}

/// A short header with key phase 0 up to and with the packet number.
pub open spec fn short_header(dcid: Seq<u8>, pn: u64, pn_len: nat) -> Option<Seq<u8>> {
    if pn_len < 1 || pn_len > 4 || dcid.len() > 20 {
        None
    } else {
        Some(seq![(0x40 + pn_len - 1) as u8] + dcid + be_bytes(pn as nat, pn_len))
    }
}

/// `courierust_quic::packet::encode_short` with key phase 0: the header, where the lengths
/// are in range.
#[verifier::external_body]
pub(crate) fn encode_short(dcid: &[u8], pn: u64, pn_len: usize) -> (r: Option<Vec<u8>>)
    ensures
        match short_header(dcid@, pn, pn_len as nat) {
            Some(h) => r is Some && r->Some_0@ == h,
            None => r is None,
        },
{
    packet::encode_short(dcid, pn, pn_len, false).ok()
}

/// `courierust_quic::varint::decode`: the integer at the front of `buf` and the bytes it
/// takes, or the text of the error where `buf` is too short.
#[verifier::external_body]
pub(crate) fn decode_varint(buf: &[u8]) -> (r: core::result::Result<(u64, usize), String>)
    ensures
        match varint_at(buf@, 0) {
            Some((v, n)) => r is Ok && r->Ok_0.0 == v && r->Ok_0.1 == n,
            None => r is Err && r->Err_0@ == "UnexpectedEof"@,
        },
{
    varint::decode(buf).map_err(|e| e.to_string())
}

} // verus!
