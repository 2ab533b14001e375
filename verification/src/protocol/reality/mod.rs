//! The REALITY client: a TLS 1.3 handshake whose session id authenticates the client to
//! a server that knows its own private key, and whose server proves itself with an
//! ephemeral certificate instead of a chain.
//!
//! A configured ML-DSA-65 check is refused, not skipped, and a real certificate is
//! reported as an error.

use super::tls13::{Tls13Error, TlsFault};
use crate::text::{chars_of, concat, find, index_from, owned};
use vstd::prelude::*;
use vstd::string::*;

pub mod agreement;
pub mod client;
pub mod wire;

verus! {

/// Errors of the REALITY layer.
#[derive(Debug)]
pub enum RealityError {
    /// An option is missing or malformed.
    Config(String),
    /// The session-id carrier is malformed.
    Wire(String),
    /// The session id did not authenticate under this key.
    Unauthenticated,
    /// The server presented a real certificate.
    Fallback(String),
    /// A configured feature is not implemented.
    Unsupported(String),
}

/// Result of a REALITY operation.
pub type Result<T> = core::result::Result<T, RealityError>;

/// An error as a mathematical value.
#[verifier::ext_equal]
pub enum RealityFault {
    Config(Seq<char>),
    Wire(Seq<char>),
    Unauthenticated,
    Fallback(Seq<char>),
    Unsupported(Seq<char>),
}

impl View for RealityError {
    type V = RealityFault;

    open spec fn view(&self) -> RealityFault {
        match self {
            RealityError::Config(m) => RealityFault::Config(m@),
            RealityError::Wire(m) => RealityFault::Wire(m@),
            RealityError::Unauthenticated => RealityFault::Unauthenticated,
            RealityError::Fallback(m) => RealityFault::Fallback(m@),
            RealityError::Unsupported(m) => RealityFault::Unsupported(m@),
        }
    }
}

impl RealityFault {
    /// The error in words.
    pub open spec fn text(self) -> Seq<char> {
        match self {
            RealityFault::Config(m) => "REALITY config error: "@ + m,
            RealityFault::Wire(m) => "REALITY wire error: "@ + m,
            RealityFault::Unauthenticated => "REALITY session id failed authentication"@,
            RealityFault::Fallback(m) => "REALITY fallback: "@ + m,
            RealityFault::Unsupported(m) => "REALITY unsupported: "@ + m,
        }
    }

    /// The error that a TLS handshake reports.
    pub open spec fn tls(self) -> TlsFault {
        match self {
            RealityFault::Fallback(m) => TlsFault::Certificate(m),
            other => TlsFault::InvalidConfig(other.text()),
        }
    }
}

impl RealityError {
    /// The error in words.
    pub fn message(&self) -> (r: String)
        ensures
            r@ == self@.text(),
    {
        match self {
            RealityError::Config(m) => concat("REALITY config error: ", m.as_str()),
            RealityError::Wire(m) => concat("REALITY wire error: ", m.as_str()),
            RealityError::Unauthenticated => owned("REALITY session id failed authentication"),
            RealityError::Fallback(m) => concat("REALITY fallback: ", m.as_str()),
            RealityError::Unsupported(m) => concat("REALITY unsupported: ", m.as_str()),
        }
    }

    /// The error that a TLS handshake reports.
    pub fn into_tls(self) -> (e: Tls13Error)
        ensures
            e@ == self@.tls(),
    {
        let text = self.message();
        match self {
            RealityError::Fallback(m) => Tls13Error::Certificate(m),
            _ => Tls13Error::InvalidConfig(text),
        }
    }
}

pub(crate) fn config(m: &str) -> (e: RealityError)
    ensures
        e@ == RealityFault::Config(m@),
{
    RealityError::Config(owned(m))
}

/// The version of the library.
pub const VERSION: &'static str = "0.2.0";

/// Part `k` of a text whose parts are separated by dots; empty where there is none.
pub open spec fn dotted_part(s: Seq<char>, k: nat) -> Seq<char>
    decreases k,
{
    let dot = index_from(s, '.', 0);
    if k == 0 {
        s.take(dot)
    } else if dot >= s.len() {
        Seq::empty()
    } else {
        dotted_part(s.skip(dot + 1), (k - 1) as nat)
    }
}

/// The number that the digits at the front of a text spell, `so_far` before them.
pub open spec fn leading_number(s: Seq<char>, so_far: nat) -> nat
    decreases s.len(),
{
    if s.len() == 0 || !('0' <= s[0] <= '9') {
        so_far
    } else {
        leading_number(s.skip(1), so_far * 10 + (s[0] as nat - '0' as nat) as nat)
    }
}

/// The byte that a part of a version spells; zero where it does not fit.
pub open spec fn version_byte(part: Seq<char>) -> u8 {
    if leading_number(part, 0) > 255 {
        0
    } else {
        leading_number(part, 0) as u8
    }
}

proof fn lemma_leading_grows(s: Seq<char>, so_far: nat)
    ensures
        leading_number(s, so_far) >= so_far,
    decreases s.len(),
{
    if s.len() > 0 && '0' <= s[0] <= '9' {
        lemma_leading_grows(s.skip(1), so_far * 10 + (s[0] as nat - '0' as nat) as nat);
    }
}

fn part_byte(chars: &[char], from: usize, to: usize) -> (b: u8)
    requires
        from <= to <= chars@.len(),
    ensures
        b == version_byte(chars@.subrange(from as int, to as int)),
{
    let ghost part = chars@.subrange(from as int, to as int);
    let mut n: u32 = 0;
    let mut i: usize = from;
    proof {
        assert(part.skip(0) =~= part);
    }
    while i < to && '0' <= chars[i] && chars[i] <= '9'
        invariant
            from <= i <= to <= chars.len(),
            n <= 255,
            part == chars@.subrange(from as int, to as int),
            leading_number(part, 0) == leading_number(part.skip(i - from), n as nat),
        decreases to - i,
    {
        let d: u32 = chars[i] as u32 - '0' as u32;
        proof {
            assert(part.skip(i - from)[0] == chars@[i as int]);
            assert(part.skip(i - from).skip(1) =~= part.skip(i - from + 1));
            lemma_leading_grows(part.skip(i - from + 1), (n * 10 + d) as nat);
        }
        n = n * 10 + d;
        if n > 255 {
            return 0;
        }
        i = i + 1;
    }
    n as u8
}

/// The three bytes of a dotted version.
pub fn version_bytes(version: &str) -> (r: [u8; 3])
    ensures
        r@ == Seq::new(3, |k: int| version_byte(dotted_part(version@, k as nat))),
{
    let chars = chars_of(version);
    let mut r = [0u8; 3];
    let mut from: usize = 0;
    let mut k: usize = 0;
    let ghost s = chars@;
    let ghost want = Seq::new(3, |k: int| version_byte(dotted_part(s, k as nat)));
    proof {
        assert(s.skip(0) =~= s);
    }
    while k < 3
        invariant
            k <= 3,
            s == chars@,
            from <= chars.len(),
            want == Seq::new(3, |k: int| version_byte(dotted_part(s, k as nat))),
            forall|j: int| 0 <= j < k ==> r@[j] == want[j],
            forall|j: nat|
                dotted_part(s, k as nat + j) == #[trigger] dotted_part(s.skip(from as int), j),
        decreases 3 - k,
    {
        let ghost rest = s.skip(from as int);
        let dot: usize = find(&chars, '.', from);
        proof {
            crate::text::lemma_index_skip(s, '.', from as int);
            assert(dotted_part(s, k as nat + 0) == dotted_part(rest, 0));
            assert(rest.take(dot - from) =~= s.subrange(from as int, dot as int));
        }
        r[k] = part_byte(&chars, from, dot);
        let ghost next = if dot < chars@.len() {
            dot + 1
        } else {
            dot as int
        };
        proof {
            assert(s.skip(next) =~= if dot < s.len() {
                rest.skip(dot - from + 1)
            } else {
                Seq::empty()
            });
            assert forall|j: nat|
                dotted_part(s, (k + 1) as nat + j) == #[trigger] dotted_part(s.skip(next), j) by {
                assert(dotted_part(s, k as nat + (j + 1)) == dotted_part(rest, j + 1));
                assert(k as nat + (j + 1) == (k + 1) as nat + j);
                if dot >= s.len() {
                    lemma_no_parts(j);
                }
            }
        }
        if dot < chars.len() {
            from = dot + 1;
        } else {
            from = dot;
        }
        k = k + 1;
    }
    proof {
        assert(r@ =~= want);
    }
    r
}

proof fn lemma_no_parts(k: nat)
    ensures
        dotted_part(Seq::empty(), k) == Seq::<char>::empty(),
{
    assert(Seq::<char>::empty().take(0) =~= Seq::<char>::empty());
}

/// The version bytes that the client claims inside the session id: its own.
pub fn client_version() -> (r: [u8; 3])
    ensures
        r@ == seq![0u8, 2u8, 0u8],
{
    proof {
        reveal_strlit("0.2.0");
        let s = "0.2.0"@;
        let t = s.skip(2);
        let u = t.skip(2);
        assert(s =~= seq!['0', '.', '2', '.', '0']);
        assert(t =~= seq!['2', '.', '0']);
        assert(u =~= seq!['0']);
        reveal_with_fuel(index_from, 4);
        reveal_with_fuel(dotted_part, 4);
        assert(s.take(1) =~= seq!['0']);
        assert(t.take(1) =~= seq!['2']);
        assert(u.take(1) =~= seq!['0']);
        assert(dotted_part(s, 0) =~= seq!['0']);
        assert(dotted_part(s, 1) =~= seq!['2']);
        assert(dotted_part(s, 2) =~= seq!['0']);
        reveal_with_fuel(leading_number, 3);
        assert(seq!['0'].skip(1) =~= Seq::empty());
        assert(seq!['2'].skip(1) =~= Seq::empty());
        assert(Seq::new(3, |k: int| version_byte(dotted_part(s, k as nat))) =~= seq![0u8, 2u8, 0u8]);
    }
    version_bytes(VERSION)
}

} // verus!
