//! Internet addresses as plain octets.

use crate::text::{concat, decimal, push_char, push_decimal};
use vstd::prelude::*;
use vstd::string::*;

verus! {

/// A socket address.
#[derive(Debug, Clone, Copy, PartialEq, Eq, Hash)]
pub enum SocketAddr {
    /// Octets and port.
    V4([u8; 4], u16),
    /// Octets, port and scope identifier.
    V6([u8; 16], u16, u32),
}

/// Dotted-decimal notation.
pub open spec fn ipv4_text(ip: Seq<u8>) -> Seq<char> {
    decimal(ip[0] as nat).push('.') + decimal(ip[1] as nat).push('.') + decimal(
        ip[2] as nat,
    ).push('.') + decimal(ip[3] as nat)
}

/// The text form of an IPv6 address, as `core::net::Ipv6Addr` displays it.
pub uninterp spec fn ipv6_text(ip: Seq<u8>) -> Seq<char>;

/// The `Display` of `core::net::Ipv6Addr`: a text that depends on the sixteen octets alone.
#[verifier::external_body]
pub(crate) fn ipv6_to_text(ip: &[u8; 16]) -> (r: String)
    ensures
        r@ == ipv6_text(ip@),
{
    core::net::Ipv6Addr::from(*ip).to_string()
}

/// Dotted-decimal notation.
pub fn ipv4_to_text(ip: &[u8; 4]) -> (r: String)
    ensures
        r@ == ipv4_text(ip@),
{
    let mut r = String::new();
    push_decimal(&mut r, ip[0] as u64);
    push_char(&mut r, '.');
    push_decimal(&mut r, ip[1] as u64);
    push_char(&mut r, '.');
    push_decimal(&mut r, ip[2] as u64);
    push_char(&mut r, '.');
    push_decimal(&mut r, ip[3] as u64);
    proof {
        assert(r@ =~= ipv4_text(ip@));
    }
    r
}

/// The socket address that a text denotes, as `core::net::SocketAddr` reads it.
pub uninterp spec fn socket_addr_of(text: Seq<char>) -> Option<SocketAddr>;

/// The `FromStr` of `core::net::SocketAddr`: an address that depends on the text alone, or
/// none where the text is no address with a port.
#[verifier::external_body]
pub(crate) fn parse_socket_addr(text: &str) -> (r: Option<SocketAddr>)
    ensures
        r == socket_addr_of(text@),
{
    match text.parse::<core::net::SocketAddr>() {
        Ok(core::net::SocketAddr::V4(a)) => Some(SocketAddr::V4(a.ip().octets(), a.port())),
        Ok(core::net::SocketAddr::V6(a)) => {
            Some(SocketAddr::V6(a.ip().octets(), a.port(), a.scope_id()))
        }
        Err(_) => None,
    }
}

/// The addresses that a host keeps to itself: `127.0.0.0/8` and `::1`.
pub open spec fn loopback(addr: SocketAddr) -> bool {
    match addr {
        SocketAddr::V4(ip, _) => ip@[0] == 127,
        SocketAddr::V6(ip, _, _) => ip@ =~= Seq::new(15, |i: int| 0u8).push(1),
    }
}

/// The text form of a socket address.
pub open spec fn socket_text(addr: SocketAddr) -> Seq<char> {
    match addr {
        SocketAddr::V4(ip, port) => ipv4_text(ip@).push(':') + decimal(port as nat),
        SocketAddr::V6(ip, port, scope) => if scope == 0 {
            "["@ + ipv6_text(ip@) + "]:"@ + decimal(port as nat)
        } else {
            "["@ + ipv6_text(ip@) + "%"@ + decimal(scope as nat) + "]:"@ + decimal(port as nat)
        },
    }
}

impl SocketAddr {
    /// Whether nothing but the host itself can reach the address.
    #[verifier::loop_isolation(false)]
    pub fn is_loopback(&self) -> (r: bool)
        ensures
            r == loopback(*self),
    {
        match self {
            SocketAddr::V4(ip, _) => ip[0] == 127,
            SocketAddr::V6(ip, _, _) => {
                let mut i: usize = 0;
                while i < 15
                    invariant
                        i <= 15,
                        forall|j: int| 0 <= j < i ==> ip@[j] == 0,
                    decreases 15 - i,
                {
                    if ip[i] != 0 {
                        assert(ip@[i as int] != Seq::new(15, |j: int| 0u8).push(1)[i as int]);
                        return false;
                    }
                    i = i + 1;
                }
                proof {
                    let one = Seq::new(15, |j: int| 0u8).push(1);
                    assert(ip@[15] == one[15] ==> ip@ =~= one);
                }
                ip[15] == 1
            },
        }
    }

    /// The text form of the address.
    pub fn text(&self) -> (r: String)
        ensures
            r@ == socket_text(*self),
    {
        let mut r = match self {
            SocketAddr::V4(ip, _) => concat(&ipv4_to_text(ip), ":"),
            SocketAddr::V6(ip, _, scope) => {
                let mut s = concat("[", &ipv6_to_text(ip));
                if *scope != 0 {
                    s = concat(&s, "%");
                    push_decimal(&mut s, *scope as u64);
                }
                concat(&s, "]:")
            },
        };
        let port: u16 = match self {
            SocketAddr::V4(_, port) => *port,
            SocketAddr::V6(_, port, _) => *port,
        };
        proof {
            reveal_strlit(":");
        }
        push_decimal(&mut r, port as u64);
        proof {
            assert(r@ =~= socket_text(*self));
        }
        r
    }
}

} // verus!
