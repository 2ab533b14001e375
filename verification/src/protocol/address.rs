//! SOCKS-style addresses: a type byte, the host, and a big-endian port.

use super::error::{ProtocolError, Result};
use crate::net::{ipv4_text, ipv4_to_text, ipv6_text, ipv6_to_text, SocketAddr};
use crate::text::{decimal, owned, push_char, push_decimal};
use crate::wire::{
    be_bytes, be_value, extend, lemma_be_round_trip, lemma_be_value_bytes, lemma_pow256, push_be,
    read_be,
};
use vstd::prelude::*;
use vstd::slice::slice_subrange;
use vstd::string::*;
use vstd::utf8::{
    decode_utf8, decode_utf8_encode_utf8, encode_utf8, encode_utf8_decode_utf8,
    encode_utf8_valid_utf8, valid_utf8,
};

verus! {

/// The kind of a host.
#[derive(Debug, Clone, Copy, PartialEq, Eq, Structural)]
pub enum AddressType {
    IPv4,
    Domain,
    IPv6,
}

/// The type byte of each kind.
pub open spec fn type_byte(t: AddressType) -> u8 {
    match t {
        AddressType::IPv4 => 1,
        AddressType::Domain => 3,
        AddressType::IPv6 => 4,
    }
}

impl AddressType {
    /// The type byte.
    pub fn byte(self) -> (b: u8)
        ensures
            b == type_byte(self),
    {
        match self {
            AddressType::IPv4 => 0x01,
            AddressType::Domain => 0x03,
            AddressType::IPv6 => 0x04,
        }
    }

    /// The kind that a type byte stands for.
    pub fn try_from(value: u8) -> (r: Result<Self>)
        ensures
            match r {
                Ok(t) => type_byte(t) == value,
                Err(e) => e == ProtocolError::UnsupportedAddressType(value) && value != 1 && value != 3
                    && value != 4,
            },
    {
        if value == 0x01 {
            Ok(AddressType::IPv4)
        } else if value == 0x03 {
            Ok(AddressType::Domain)
        } else if value == 0x04 {
            Ok(AddressType::IPv6)
        } else {
            Err(ProtocolError::UnsupportedAddressType(value))
        }
    }
}

/// A host and a port.
#[derive(Debug, Clone, PartialEq, Eq, Hash)]
pub enum Address {
    Domain(String, u16),
    Ipv4([u8; 4], u16),
    Ipv6([u8; 16], u16),
}

/// A host and a port, as a mathematical value.
#[verifier::ext_equal]
pub enum AddressView {
    Domain(Seq<char>, u16),
    Ipv4(Seq<u8>, u16),
    Ipv6(Seq<u8>, u16),
}

impl View for Address {
    type V = AddressView;

    open spec fn view(&self) -> AddressView {
        match self {
            Address::Domain(d, p) => AddressView::Domain(d@, *p),
            Address::Ipv4(ip, p) => AddressView::Ipv4(ip@, *p),
            Address::Ipv6(ip, p) => AddressView::Ipv6(ip@, *p),
        }
    }
}

impl AddressView {
    pub open spec fn port(self) -> u16 {
        match self {
            AddressView::Domain(_, p) => p,
            AddressView::Ipv4(_, p) => p,
            AddressView::Ipv6(_, p) => p,
        }
    }

    pub open spec fn kind(self) -> AddressType {
        match self {
            AddressView::Domain(..) => AddressType::Domain,
            AddressView::Ipv4(..) => AddressType::IPv4,
            AddressView::Ipv6(..) => AddressType::IPv6,
        }
    }

    /// The host in text form.
    pub open spec fn host(self) -> Seq<char> {
        match self {
            AddressView::Domain(d, _) => d,
            AddressView::Ipv4(ip, _) => ipv4_text(ip),
            AddressView::Ipv6(ip, _) => ipv6_text(ip),
        }
    }

    /// Whether the address has a wire form: octets of the right number, or a domain
    /// of at most 255 bytes.
    pub open spec fn encodable(self) -> bool {
        match self {
            AddressView::Domain(d, _) => encode_utf8(d).len() <= 255,
            AddressView::Ipv4(ip, _) => ip.len() == 4,
            AddressView::Ipv6(ip, _) => ip.len() == 16,
        }
    }

    /// The type byte and the host.
    pub open spec fn host_bytes(self) -> Seq<u8> {
        match self {
            AddressView::Domain(d, _) => seq![3u8, encode_utf8(d).len() as u8] + encode_utf8(d),
            AddressView::Ipv4(ip, _) => seq![1u8] + ip,
            AddressView::Ipv6(ip, _) => seq![4u8] + ip,
        }
    }

    /// The wire form.
    pub open spec fn bytes(self) -> Seq<u8> {
        self.host_bytes() + be_bytes(self.port() as nat, 2)
    }

    /// The length of the wire form.
    pub open spec fn wire_len(self) -> nat {
        match self {
            AddressView::Domain(d, _) => 4 + encode_utf8(d).len(),
            AddressView::Ipv4(..) => 7,
            AddressView::Ipv6(..) => 19,
        }
    }
}

/// The host and port of a socket address.
pub open spec fn socket_address(s: SocketAddr) -> AddressView {
    match s {
        SocketAddr::V4(ip, port) => AddressView::Ipv4(ip@, port),
        SocketAddr::V6(ip, port, _) => AddressView::Ipv6(ip@, port),
    }
}

/// Why bytes are no address.
pub enum Fault {
    /// There are too few of them.
    TooSmall,
    /// The type byte is unknown.
    Unsupported(u8),
    /// The domain is not UTF-8.
    BadDomain,
}

/// The error that reports a fault.
pub open spec fn reports(e: ProtocolError, f: Fault) -> bool {
    match f {
        Fault::TooSmall => e is BufferTooSmall,
        Fault::Unsupported(t) => e == ProtocolError::UnsupportedAddressType(t),
        Fault::BadDomain => e is AddressParse && e->AddressParse_0@ == "Invalid UTF-8 domain"@,
    }
}

/// The port at `at`.
pub open spec fn port_at(buf: Seq<u8>, at: int) -> u16 {
    be_value(buf.subrange(at, at + 2)) as u16
}

/// The address at the start of `buf`, and its length.
pub open spec fn address_at(buf: Seq<u8>) -> core::result::Result<(AddressView, int), Fault> {
    if buf.len() == 0 {
        Err(Fault::TooSmall)
    } else if buf[0] == 1 {
        if buf.len() < 7 {
            Err(Fault::TooSmall)
        } else {
            Ok((AddressView::Ipv4(buf.subrange(1, 5), port_at(buf, 5)), 7))
        }
    } else if buf[0] == 4 {
        if buf.len() < 19 {
            Err(Fault::TooSmall)
        } else {
            Ok((AddressView::Ipv6(buf.subrange(1, 17), port_at(buf, 17)), 19))
        }
    } else if buf[0] == 3 {
        if buf.len() < 2 || buf.len() < 4 + buf[1] {
            Err(Fault::TooSmall)
        } else {
            let n = buf[1] as int;
            let raw = buf.subrange(2, 2 + n);
            if valid_utf8(raw) {
                Ok((AddressView::Domain(decode_utf8(raw), port_at(buf, 2 + n)), 4 + n))
            } else {
                Err(Fault::BadDomain)
            }
        }
    } else {
        Err(Fault::Unsupported(buf[0]))
    }
}

/// The text of the error for a domain of `n` bytes.
pub open spec fn long_domain_text(n: nat) -> Seq<char> {
    "domain name is "@ + decimal(n) + " bytes, exceeding the 255-byte wire limit"@
}

fn long_domain(n: usize) -> (e: ProtocolError)
    ensures
        e is Protocol,
        e->Protocol_0@ == long_domain_text(n as nat),
{
    let mut m = owned("domain name is ");
    push_decimal(&mut m, n as u64);
    m.append(" bytes, exceeding the 255-byte wire limit");
    ProtocolError::Protocol(m)
}

fn octets4(buf: &[u8], at: usize) -> (r: [u8; 4])
    requires
        at + 4 <= buf@.len(),
    ensures
        r@ == buf@.subrange(at as int, at + 4),
{
    let r = [buf[at], buf[at + 1], buf[at + 2], buf[at + 3]];
    proof {
        assert(r@ =~= buf@.subrange(at as int, at + 4));
    }
    r
}

fn octets16(buf: &[u8], at: usize) -> (r: [u8; 16])
    requires
        at + 16 <= buf@.len(),
    ensures
        r@ == buf@.subrange(at as int, at + 16),
{
    let r = [
        buf[at],
        buf[at + 1],
        buf[at + 2],
        buf[at + 3],
        buf[at + 4],
        buf[at + 5],
        buf[at + 6],
        buf[at + 7],
        buf[at + 8],
        buf[at + 9],
        buf[at + 10],
        buf[at + 11],
        buf[at + 12],
        buf[at + 13],
        buf[at + 14],
        buf[at + 15],
    ];
    proof {
        assert(r@ =~= buf@.subrange(at as int, at + 16));
    }
    r
}

fn read_port(buf: &[u8], at: usize) -> (p: u16)
    requires
        at + 2 <= buf@.len(),
    ensures
        p == port_at(buf@, at as int),
{
    proof {
        lemma_pow256();
        lemma_be_value_bytes(buf@.subrange(at as int, at + 2));
    }
    read_be(buf, at, 2) as u16
}

/// `core::str::from_utf8`: it borrows the text that the bytes encode, and refuses
/// exactly the byte strings that are not UTF-8.
#[verifier::external_body]
fn utf8_str<'a>(bytes: &'a [u8]) -> (r: Option<&'a str>)
    ensures
        r is Some <==> valid_utf8(bytes@),
        r is Some ==> r->Some_0@ == decode_utf8(bytes@),
{
    core::str::from_utf8(bytes).ok()
}

impl Address {
    pub fn from_socket_addr(addr: SocketAddr) -> (r: Self)
        ensures
            r@ == socket_address(addr),
    {
        match addr {
            SocketAddr::V4(ip, port) => Address::Ipv4(ip, port),
            SocketAddr::V6(ip, port, _) => Address::Ipv6(ip, port),
        }
    }

    pub fn from_domain(domain: String, port: u16) -> (r: Self)
        ensures
            r == Address::Domain(domain, port),
    {
        Address::Domain(domain, port)
    }

    pub fn port(&self) -> (p: u16)
        ensures
            p == self@.port(),
    {
        match self {
            Address::Domain(_, port) => *port,
            Address::Ipv4(_, port) => *port,
            Address::Ipv6(_, port) => *port,
        }
    }

    /// The host in text form.
    pub fn host(&self) -> (r: String)
        ensures
            r@ == self@.host(),
    {
        match self {
            Address::Domain(domain, _) => domain.clone(),
            Address::Ipv4(ip, _) => ipv4_to_text(ip),
            Address::Ipv6(ip, _) => ipv6_to_text(ip),
        }
    }

    pub fn address_type(&self) -> (t: AddressType)
        ensures
            t == self@.kind(),
    {
        match self {
            Address::Ipv4(..) => AddressType::IPv4,
            Address::Ipv6(..) => AddressType::IPv6,
            Address::Domain(..) => AddressType::Domain,
        }
    }

    /// Append the wire form. Nothing is written where a domain is too long for it.
    pub fn write_to(&self, buf: &mut Vec<u8>) -> (r: Result<()>)
        ensures
            self@.encodable() ==> r is Ok && final(buf)@ == old(buf)@ + self@.bytes(),
            !self@.encodable() ==> final(buf)@ == old(buf)@ && r is Err && r->Err_0 is Protocol
                && r->Err_0->Protocol_0@ == long_domain_text((self@.wire_len() - 4) as nat),
    {
        if let Address::Domain(domain, _) = self {
            let n: usize = domain.as_str().as_bytes().len();
            if n > 255 {
                return Err(long_domain(n));
            }
        }
        let ghost start = buf@;
        let _ = self.write_address_to(buf);
        push_be(buf, self.port() as u64, 2);
        proof {
            assert(buf@ =~= start + self@.bytes());
        }
        Ok(())
    }

    /// Append the wire form to a plain vector.
    pub fn write_to_vec(&self, buf: &mut Vec<u8>) -> (r: Result<()>)
        ensures
            self@.encodable() ==> r is Ok && final(buf)@ == old(buf)@ + self@.bytes(),
            !self@.encodable() ==> final(buf)@ == old(buf)@ && r is Err && r->Err_0 is Protocol
                && r->Err_0->Protocol_0@ == long_domain_text((self@.wire_len() - 4) as nat),
    {
        self.write_to(buf)
    }

    /// Append the wire form without the port.
    pub fn write_address_to(&self, buf: &mut Vec<u8>) -> (r: Result<()>)
        ensures
            self@.encodable() ==> r is Ok && final(buf)@ == old(buf)@ + self@.host_bytes(),
            !self@.encodable() ==> final(buf)@ == old(buf)@ && r is Err && r->Err_0 is AddressParse
                && r->Err_0->AddressParse_0@ == "Domain name too long"@,
    {
        let ghost start = buf@;
        match self {
            Address::Ipv4(ip, _) => {
                buf.push(0x01);
                extend(buf, ip.as_slice());
            },
            Address::Ipv6(ip, _) => {
                buf.push(0x04);
                extend(buf, ip.as_slice());
            },
            Address::Domain(domain, _) => {
                let raw = domain.as_str().as_bytes();
                if raw.len() > 255 {
                    return Err(ProtocolError::AddressParse(owned("Domain name too long")));
                }
                buf.push(0x03);
                buf.push(raw.len() as u8);
                extend(buf, raw);
            },
        }
        proof {
            assert(buf@ =~= start + self@.host_bytes());
        }
        Ok(())
    }

    /// The wire form.
    pub fn to_bytes(&self) -> (r: Result<Vec<u8>>)
        ensures
            self@.encodable() ==> r is Ok && r->Ok_0@ == self@.bytes(),
            !self@.encodable() ==> r is Err && r->Err_0 is Protocol && r->Err_0->Protocol_0@
                == long_domain_text((self@.wire_len() - 4) as nat),
    {
        let mut buf: Vec<u8> = Vec::new();
        match self.write_to(&mut buf) {
            Ok(()) => {
                proof {
                    assert(buf@ =~= self@.bytes());
                }
                Ok(buf)
            },
            Err(e) => Err(e),
        }
    }

    /// The length of the wire form.
    pub fn serialized_len(&self) -> (n: usize)
        requires
            self@.wire_len() <= usize::MAX,
        ensures
            n == self@.wire_len(),
    {
        match self {
            Address::Ipv4(..) => 7,
            Address::Ipv6(..) => 19,
            Address::Domain(domain, _) => 4 + domain.as_str().as_bytes().len(),
        }
    }

    /// The address at the start of `buf`, and how many bytes it takes.
    pub fn read_from(buf: &[u8]) -> (r: Result<(Self, usize)>)
        ensures
            match address_at(buf@) {
                Ok((a, n)) => r is Ok && r->Ok_0.0@ == a && r->Ok_0.1 == n,
                Err(f) => r is Err && reports(r->Err_0, f),
            },
    {
        match AddressRef::parse(buf) {
            Ok((a, n)) => Ok((a.to_owned(), n)),
            Err(e) => Err(e),
        }
    }

    /// Read an address and move `buf` behind it.
    pub fn parse_from_buf(buf: &mut &[u8]) -> (r: Result<Self>)
        ensures
            match address_at((*old(buf))@) {
                Ok((a, n)) => r is Ok && r->Ok_0@ == a && (*final(buf))@ == (*old(buf))@.skip(n),
                Err(f) => r is Err && reports(r->Err_0, f),
            },
    {
        match Self::read_from(*buf) {
            Ok((a, n)) => {
                let len: usize = buf.len();
                proof {
                    assert(buf@.subrange(n as int, len as int) =~= buf@.skip(n as int));
                }
                *buf = slice_subrange(*buf, n, len);
                Ok(a)
            },
            Err(e) => Err(e),
        }
    }

    /// The address at the start of `data`.
    pub fn from_bytes(data: &[u8]) -> (r: Result<Self>)
        ensures
            match address_at(data@) {
                Ok((a, n)) => r is Ok && r->Ok_0@ == a,
                Err(f) => r is Err && reports(r->Err_0, f),
            },
    {
        match Self::read_from(data) {
            Ok((a, _)) => Ok(a),
            Err(e) => Err(e),
        }
    }

    pub fn to_socket_addr(&self) -> (r: Option<SocketAddr>)
        ensures
            r is Some <==> self@ !is Domain,
            r is Some ==> socket_address(r->Some_0) == self@,
            r matches Some(SocketAddr::V6(_, _, scope)) ==> scope == 0,
    {
        match self {
            Address::Ipv4(ip, port) => Some(SocketAddr::V4(*ip, *port)),
            Address::Ipv6(ip, port) => Some(SocketAddr::V6(*ip, *port, 0)),
            Address::Domain(..) => None,
        }
    }

    /// `host:port`, the host of an IPv6 address in brackets.
    pub fn to_text(&self) -> (r: String)
        ensures
            r@ == address_text(self@),
    {
        let mut r = String::new();
        if let Address::Ipv6(..) = self {
            push_char(&mut r, '[');
            r.append(self.host().as_str());
            push_char(&mut r, ']');
        } else {
            r.append(self.host().as_str());
        }
        push_char(&mut r, ':');
        push_decimal(&mut r, self.port() as u64);
        proof {
            assert(r@ =~= address_text(self@));
        }
        r
    }

    /// What a reader of a byte stream does next, having read `got` so far.
    pub fn read_step(got: &[u8]) -> (r: Result<ReadStep>)
        ensures
            match step_after(got@) {
                Ok(StepView::More(n)) => r is Ok && r->Ok_0 == ReadStep::More(n as usize),
                Ok(StepView::Done(a)) => r is Ok && r->Ok_0 is Done && r->Ok_0->Done_0@ == a,
                Err(f) => r is Err && reports(r->Err_0, f),
            },
    {
        if got.len() == 0 {
            return Ok(ReadStep::More(1));
        }
        match AddressType::try_from(got[0]) {
            Err(e) => Err(e),
            Ok(AddressType::IPv4) => {
                if got.len() < 5 {
                    Ok(ReadStep::More(5 - got.len()))
                } else if got.len() < 7 {
                    Ok(ReadStep::More(7 - got.len()))
                } else {
                    Self::done(got)
                }
            },
            Ok(AddressType::IPv6) => {
                if got.len() < 17 {
                    Ok(ReadStep::More(17 - got.len()))
                } else if got.len() < 19 {
                    Ok(ReadStep::More(19 - got.len()))
                } else {
                    Self::done(got)
                }
            },
            Ok(AddressType::Domain) => {
                if got.len() < 2 {
                    return Ok(ReadStep::More(1));
                }
                let n: usize = got[1] as usize;
                if got.len() < 2 + n {
                    return Ok(ReadStep::More(2 + n - got.len()));
                }
                if utf8_str(slice_subrange(got, 2, 2 + n)).is_none() {
                    return Err(ProtocolError::AddressParse(owned("Invalid UTF-8 domain")));
                }
                if got.len() < 4 + n {
                    Ok(ReadStep::More(4 + n - got.len()))
                } else {
                    Self::done(got)
                }
            },
        }
    }

    fn done(got: &[u8]) -> (r: Result<ReadStep>)
        ensures
            match address_at(got@) {
                Ok((a, n)) => r is Ok && r->Ok_0 is Done && r->Ok_0->Done_0@ == a,
                Err(f) => r is Err && reports(r->Err_0, f),
            },
    {
        match Self::from_bytes(got) {
            Ok(a) => Ok(ReadStep::Done(a)),
            Err(e) => Err(e),
        }
    }
}

/// What a reader of a byte stream does next.
#[derive(Debug)]
pub enum ReadStep {
    /// Read exactly this many bytes more.
    More(usize),
    /// The address is complete.
    Done(Address),
}

/// What a reader of a byte stream does next, as a mathematical value.
pub enum StepView {
    More(int),
    Done(AddressView),
}

/// The next step after `got`: the type byte alone, then the length of a domain, the
/// host, and last the port. The domain is checked before its port is read.
pub open spec fn step_after(got: Seq<u8>) -> core::result::Result<StepView, Fault> {
    let host_end = if got.len() == 0 {
        1
    } else if got[0] == 1 {
        5
    } else if got[0] == 4 {
        17
    } else if got.len() < 2 {
        2
    } else {
        2 + got[1]
    };
    if got.len() == 0 {
        Ok(StepView::More(1))
    } else if got[0] != 1 && got[0] != 3 && got[0] != 4 {
        Err(Fault::Unsupported(got[0]))
    } else if got.len() < host_end {
        Ok(StepView::More(host_end - got.len()))
    } else if got[0] == 3 && !valid_utf8(got.subrange(2, host_end)) {
        Err(Fault::BadDomain)
    } else if got.len() < host_end + 2 {
        Ok(StepView::More(host_end + 2 - got.len()))
    } else {
        match address_at(got) {
            Ok((a, _)) => Ok(StepView::Done(a)),
            Err(f) => Err(f),
        }
    }
}

/// `host:port`, the host of an IPv6 address in brackets.
pub open spec fn address_text(a: AddressView) -> Seq<char> {
    let host = match a {
        AddressView::Ipv6(..) => seq!['['] + a.host() + seq![']'],
        _ => a.host(),
    };
    host + seq![':'] + decimal(a.port() as nat)
}

/// A borrowed view of a wire-encoded address: the domain is a slice of the input.
#[derive(Debug, Clone, Copy, PartialEq, Eq)]
pub enum AddressRef<'a> {
    Domain(&'a str, u16),
    Ipv4([u8; 4], u16),
    Ipv6([u8; 16], u16),
}

impl<'a> View for AddressRef<'a> {
    type V = AddressView;

    open spec fn view(&self) -> AddressView {
        match self {
            AddressRef::Domain(d, p) => AddressView::Domain(d@, *p),
            AddressRef::Ipv4(ip, p) => AddressView::Ipv4(ip@, *p),
            AddressRef::Ipv6(ip, p) => AddressView::Ipv6(ip@, *p),
        }
    }
}

impl<'a> AddressRef<'a> {
    /// The address at the start of `buf`, and how many bytes it takes.
    pub fn parse(buf: &'a [u8]) -> (r: Result<(Self, usize)>)
        ensures
            match address_at(buf@) {
                Ok((a, n)) => r is Ok && r->Ok_0.0@ == a && r->Ok_0.1 == n && n <= buf@.len(),
                Err(f) => r is Err && reports(r->Err_0, f),
            },
    {
        if buf.len() == 0 {
            return Err(ProtocolError::BufferTooSmall);
        }
        match AddressType::try_from(buf[0]) {
            Err(e) => Err(e),
            Ok(AddressType::IPv4) => {
                if buf.len() < 7 {
                    return Err(ProtocolError::BufferTooSmall);
                }
                Ok((AddressRef::Ipv4(octets4(buf, 1), read_port(buf, 5)), 7))
            },
            Ok(AddressType::IPv6) => {
                if buf.len() < 19 {
                    return Err(ProtocolError::BufferTooSmall);
                }
                Ok((AddressRef::Ipv6(octets16(buf, 1), read_port(buf, 17)), 19))
            },
            Ok(AddressType::Domain) => {
                if buf.len() < 2 {
                    return Err(ProtocolError::BufferTooSmall);
                }
                let n: usize = buf[1] as usize;
                if buf.len() < 4 + n {
                    return Err(ProtocolError::BufferTooSmall);
                }
                match utf8_str(slice_subrange(buf, 2, 2 + n)) {
                    Some(domain) => Ok((AddressRef::Domain(domain, read_port(buf, 2 + n)), 4 + n)),
                    None => Err(ProtocolError::AddressParse(owned("Invalid UTF-8 domain"))),
                }
            },
        }
    }

    pub fn port(&self) -> (p: u16)
        ensures
            p == self@.port(),
    {
        match self {
            AddressRef::Domain(_, port) => *port,
            AddressRef::Ipv4(_, port) => *port,
            AddressRef::Ipv6(_, port) => *port,
        }
    }

    /// The borrowed domain, if this is a domain address.
    pub fn domain(&self) -> (r: Option<&'a str>)
        ensures
            match self@ {
                AddressView::Domain(d, _) => r is Some && r->Some_0@ == d,
                _ => r is None,
            },
    {
        match self {
            AddressRef::Domain(domain, _) => Some(*domain),
            _ => None,
        }
    }

    pub fn address_type(&self) -> (t: AddressType)
        ensures
            t == self@.kind(),
    {
        match self {
            AddressRef::Ipv4(..) => AddressType::IPv4,
            AddressRef::Ipv6(..) => AddressType::IPv6,
            AddressRef::Domain(..) => AddressType::Domain,
        }
    }

    /// The owned form.
    pub fn to_owned(&self) -> (r: Address)
        ensures
            r@ == self@,
    {
        match self {
            AddressRef::Domain(domain, port) => Address::Domain(owned(domain), *port),
            AddressRef::Ipv4(ip, port) => Address::Ipv4(*ip, *port),
            AddressRef::Ipv6(ip, port) => Address::Ipv6(*ip, *port),
        }
    }
}

// ---------------------------------------------------------------------------
// Laws
// ---------------------------------------------------------------------------

proof fn lemma_port_round_trip(buf: Seq<u8>, at: int, port: u16)
    requires
        0 <= at,
        at + 2 <= buf.len(),
        buf.subrange(at, at + 2) == be_bytes(port as nat, 2),
    ensures
        port_at(buf, at) == port,
{
    lemma_pow256();
    lemma_be_round_trip(port as nat, 2);
}

/// An address that was written is read back, whatever follows it, and takes as many
/// bytes as [`Address::serialized_len`] says.
pub proof fn lemma_address_round_trip(a: AddressView, tail: Seq<u8>)
    requires
        a.encodable(),
    ensures
        a.bytes().len() == a.wire_len(),
        address_at(a.bytes() + tail) == Ok::<(AddressView, int), Fault>((a, a.wire_len() as int)),
{
    let buf = a.bytes() + tail;
    let port = be_bytes(a.port() as nat, 2);
    lemma_pow256();
    lemma_be_round_trip(a.port() as nat, 2);
    let host = a.host_bytes();
    assert(buf.subrange(host.len() as int, host.len() as int + 2) =~= port);
    match a {
        AddressView::Ipv4(ip, p) => {
            assert(buf.subrange(1, 5) =~= ip);
            lemma_port_round_trip(buf, 5, p);
        },
        AddressView::Ipv6(ip, p) => {
            assert(buf.subrange(1, 17) =~= ip);
            lemma_port_round_trip(buf, 17, p);
        },
        AddressView::Domain(d, p) => {
            let raw = encode_utf8(d);
            assert(buf.subrange(2, 2 + raw.len() as int) =~= raw);
            encode_utf8_valid_utf8(d);
            encode_utf8_decode_utf8(d);
            lemma_port_round_trip(buf, (2 + raw.len()) as int, p);
        },
    }
}

/// Bytes that were read as an address are what that address is written as.
pub proof fn lemma_address_reencodes(buf: Seq<u8>)
    requires
        address_at(buf) is Ok,
    ensures
        address_at(buf)->Ok_0.0.encodable(),
        address_at(buf)->Ok_0.0.bytes() == buf.take(address_at(buf)->Ok_0.1),
{
    let (a, n) = address_at(buf)->Ok_0;
    lemma_pow256();
    lemma_be_value_bytes(buf.subrange(n - 2, n));
    match a {
        AddressView::Ipv4(ip, p) => {
            assert(a.bytes() =~= buf.take(n));
        },
        AddressView::Ipv6(ip, p) => {
            assert(a.bytes() =~= buf.take(n));
        },
        AddressView::Domain(d, p) => {
            decode_utf8_encode_utf8(buf.subrange(2, n - 2));
            assert(a.bytes() =~= buf.take(n));
        },
    }
}

/// Two socket addresses that name the same host and port are equal, but for the scope
/// of an IPv6 one; so an IPv4 socket address survives the way through [`Address`].
pub proof fn lemma_socket_addr_round_trip(s: SocketAddr, t: SocketAddr)
    requires
        socket_address(s) == socket_address(t),
    ensures
        s is V4 ==> s == t,
        s matches SocketAddr::V6(ip, port, _) ==> t matches SocketAddr::V6(ip2, port2, _) && ip
            == ip2 && port == port2,
{
    match (s, t) {
        (SocketAddr::V4(ip, port), SocketAddr::V4(ip2, port2)) => {
            assert(ip =~= ip2);
        },
        (SocketAddr::V6(ip, port, _), SocketAddr::V6(ip2, port2, _)) => {
            assert(ip =~= ip2);
        },
        _ => {},
    }
}

/// An address that arrives in pieces is asked for until it is whole, never for more than is
/// left of it, and is the address that was sent once it is.
pub proof fn lemma_address_in_pieces(a: AddressView, n: int)
    requires
        a.encodable(),
        0 <= n <= a.wire_len(),
    ensures
        n < a.wire_len() ==> (step_after(a.bytes().take(n)) matches Ok(StepView::More(k)) && 0 < k
            <= a.wire_len() - n),
        n == a.wire_len() ==> step_after(a.bytes().take(n)) == Ok::<StepView, Fault>(
            StepView::Done(a),
        ),
{
    let none = Seq::<u8>::empty();
    let all = a.bytes();
    lemma_address_round_trip(a, none);
    assert(all + none =~= all);
    let got = all.take(n);
    if n == a.wire_len() {
        assert(got =~= all);
    }
    if n > 0 {
        assert(got[0] == all[0]);
    }
    if let AddressView::Domain(d, _) = a {
        let raw = encode_utf8(d);
        vstd::utf8::encode_utf8_valid_utf8(d);
        if n > 1 {
            assert(got[1] == all[1]);
        }
        if n >= 2 + raw.len() {
            assert(got.subrange(2, 2 + raw.len() as int) =~= raw);
        }
    }
}

} // verus!
