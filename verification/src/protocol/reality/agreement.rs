//! What both ends of REALITY agree on: what a sealed hello says to the server, what settings
//! say, and which certificate proves the server.

use super::client::{
    all_hex, hex_bytes, hex_pairs, options_of, public_key_of, reality_verdict, short_id_of,
};
use super::wire::{lemma_meta_round_trip, meta_bytes, sealed_hello, unsealed, with_session_id};
use super::{leading_number, version_byte, RealityFault};
use crate::crypto::{gcm_opened, gcm_sealed, mac_of, HashAlg};
use crate::json::JsonView;
use crate::protocol::tls13::key_schedule::zeros;
use crate::text::{decimal, digit_char, hex_value, is_white, trimmed};
use crate::x509::LeafView;
use vstd::prelude::*;
use vstd::string::*;
use vstd::utf8::{encode_utf8, is_ascii_chars, is_ascii_chars_encode_utf8};

verus! {

/// A session identifier takes its place in a hello and nothing else does: what stood before
/// and behind it stays, and writing another in its place forgets the first.
pub proof fn lemma_session_id_in_place(hello: Seq<u8>, id: Seq<u8>, other: Seq<u8>, i: int)
    requires
        hello.len() >= 71,
        id.len() == 32,
        other.len() == 32,
        0 <= i < hello.len(),
    ensures
        with_session_id(hello, id).len() == hello.len(),
        with_session_id(hello, id).subrange(39, 71) == id,
        !(39 <= i < 71) ==> with_session_id(hello, id)[i] == hello[i],
        with_session_id(with_session_id(hello, id), other) == with_session_id(hello, other),
{
    assert(with_session_id(hello, id).subrange(39, 71) =~= id);
    assert(with_session_id(with_session_id(hello, id), other) =~= with_session_id(hello, other));
}

/// What the client seals into its hello, the server that has the key reads: the version, the
/// time and the short identifier, for every identifier that does not end with a zero. `gcm_opened`
/// of what was sealed is what the sealing of each hello establishes.
pub proof fn lemma_sealed_hello_read(
    key: Seq<u8>,
    random: Seq<u8>,
    hello: Seq<u8>,
    version: Seq<u8>,
    timestamp: u32,
    short_id: Seq<u8>,
)
    requires
        hello.len() >= 71,
        version.len() == 3,
        short_id.len() <= 8,
        short_id.len() == 0 || short_id.last() != 0,
        ({
            let plain = meta_bytes(version, timestamp, short_id);
            let aad = with_session_id(hello, zeros(32));
            let nonce = random.subrange(20, 32);
            &&& gcm_sealed(key, nonce, aad, plain).len() == 32
            &&& gcm_opened(key, nonce, aad, gcm_sealed(key, nonce, aad, plain)) == Some(plain)
        }),
    ensures
        ({
            let plain = meta_bytes(version, timestamp, short_id);
            let sent = sealed_hello(key, random, hello, plain);
            unsealed(key, random, sent) matches Ok((meta, id)) && meta.version == version
                && meta.timestamp == timestamp && meta.short_id_len == short_id.len() && id
                == short_id
        }),
{
    let plain = meta_bytes(version, timestamp, short_id);
    let aad = with_session_id(hello, zeros(32));
    let id = gcm_sealed(key, random.subrange(20, 32), aad, plain);
    let sent = sealed_hello(key, random, hello, plain);
    lemma_session_id_in_place(hello, id, zeros(32), 0);
    lemma_meta_round_trip(version, timestamp, short_id);
    assert(short_id.take(short_id.len() as int) =~= short_id);
}

/// A server is proved by a certificate whose signature is the HMAC-SHA512 of its key under
/// the key that was agreed on, and by no other; before there is such a key, by none.
pub proof fn lemma_server_proved(key: [u8; 32], leaf: LeafView)
    ensures
        reality_verdict(Some(key), leaf) is None <==> leaf.key.len() == 32 && leaf.signature
            == mac_of(HashAlg::Sha512, key@, leaf.key),
        reality_verdict(None, leaf) is Some,
{
}

/// Bytes in lower-case hexadecimal.
pub open spec fn hex_of(b: Seq<u8>) -> Seq<char> {
    Seq::new(
        2 * b.len(),
        |i: int|
            digit_char(
                (if i % 2 == 0 {
                    b[i / 2] / 16
                } else {
                    b[i / 2] % 16
                }) as nat,
            ),
    )
}

proof fn lemma_hex_ascii(b: Seq<u8>)
    ensures
        encode_utf8(hex_of(b)).len() == 2 * b.len(),
        all_hex(encode_utf8(hex_of(b))),
        hex_pairs(encode_utf8(hex_of(b))) == b,
        forall|i: int| 0 <= i < hex_of(b).len() ==> !is_white(#[trigger] hex_of(b)[i]),
{
    let s = hex_of(b);
    assert forall|i: int| 0 <= i < s.len() implies ('\0' <= #[trigger] s[i] <= '\u{7f}') by {
        let d = if i % 2 == 0 {
            b[i / 2] / 16
        } else {
            b[i / 2] % 16
        };
        assert(d < 16);
    }
    assert(is_ascii_chars(s));
    is_ascii_chars_encode_utf8(s);
    let raw = encode_utf8(s);
    assert forall|i: int| 0 <= i < raw.len() implies hex_value(#[trigger] raw[i]) is Some by {
        let d = if i % 2 == 0 {
            b[i / 2] / 16
        } else {
            b[i / 2] % 16
        };
        assert(d < 16);
        assert(s[i] == digit_char(d as nat));
        assert(raw[i] == s[i] as u8);
    }
    assert forall|i: int| 0 <= i < s.len() implies !is_white(#[trigger] s[i]) by {
        let d = if i % 2 == 0 {
            b[i / 2] / 16
        } else {
            b[i / 2] % 16
        };
        assert(d < 16);
        assert(s[i] == digit_char(d as nat));
    }
    assert(hex_pairs(raw) =~= b) by {
        assert forall|i: int| 0 <= i < b.len() implies hex_pairs(raw)[i] == b[i] by {
            assert(s[2 * i] == digit_char((b[i] / 16) as nat)) by {
                assert((2 * i) / 2 == i && (2 * i) % 2 == 0);
            }
            assert(s[2 * i + 1] == digit_char((b[i] % 16) as nat)) by {
                assert((2 * i + 1) / 2 == i && (2 * i + 1) % 2 == 1);
            }
            assert(raw[2 * i] == s[2 * i] as u8);
            assert(raw[2 * i + 1] == s[2 * i + 1] as u8);
            assert(hex_value(raw[2 * i]) == Some((b[i] / 16) as u8));
            assert(hex_value(raw[2 * i + 1]) == Some((b[i] % 16) as u8));
        }
    }
}

/// A key in hexadecimal is read as its bytes, where there are 32 of them, and a short
/// identifier where there are at most eight. What has an odd number of digits is none.
pub proof fn lemma_hexadecimal_read(b: Seq<u8>, odd: Seq<u8>)
    requires
        odd.len() % 2 == 1,
    ensures
        hex_bytes(encode_utf8(hex_of(b))) matches Ok(r) && r == b,
        b.len() == 32 ==> public_key_of(hex_of(b)) == Ok::<Seq<u8>, RealityFault>(b),
        b.len() <= 8 ==> short_id_of(Some(JsonView::Text(hex_of(b)))) == Ok::<
            Seq<u8>,
            RealityFault,
        >(b),
        b.len() > 8 ==> short_id_of(Some(JsonView::Text(hex_of(b)))) is Err,
        short_id_of(None) == Ok::<Seq<u8>, RealityFault>(Seq::empty()),
        hex_bytes(odd) is Err,
{
    lemma_hex_ascii(b);
    let s = hex_of(b);
    if b.len() == 32 {
        assert(!is_white(s[0]) && !is_white(s[63]));
        assert(trimmed(s) == s);
    }
}

/// Which settings are taken for what. A name with a dash goes before one with an underscore
/// and before any other name for the same thing.
pub proof fn lemma_settings_read(
    opts: Seq<(Seq<char>, JsonView)>,
    name: Seq<char>,
)
    ensures
        ({
            let o = JsonView::Object(opts);
            &&& options_of(opts, name) is Ok ==> {
                let r = options_of(opts, name)->Ok_0;
                &&& r.public_key.len() == 32
                &&& r.short_id.len() <= 8
                &&& r.server_name.len() > 0
                &&& o.get("public-key"@) matches Some(JsonView::Text(k)) ==> public_key_of(k)
                    == Ok::<Seq<u8>, RealityFault>(r.public_key)
                &&& o.get("public-key"@) is None ==> (o.get("public_key"@) matches Some(
                    JsonView::Text(k),
                ) ==> public_key_of(k) == Ok::<Seq<u8>, RealityFault>(r.public_key))
                &&& o.get("short-id"@) matches Some(v) ==> short_id_of(Some(v)) == Ok::<
                    Seq<u8>,
                    RealityFault,
                >(r.short_id)
                &&& o.get("short-id"@) is None && o.get("short_id"@) is None ==> r.short_id.len()
                    == 0
                &&& o.get("server-name"@) matches Some(JsonView::Text(s)) ==> (trimmed(s).len() > 0
                    ==> r.server_name == trimmed(s))
                &&& o.get("server-name"@) is None && o.get("server_name"@) is None && o.get("sni"@)
                    is None ==> r.server_name == trimmed(name)
            }
            &&& o.get("public-key"@) is None && o.get("public_key"@) is None && o.get("password"@)
                is None ==> options_of(opts, name) is Err
            &&& o.get("mldsa65-verify"@) matches Some(JsonView::Text(s)) ==> (trimmed(s).len() > 0
                ==> options_of(opts, name) is Err)
        }),
{
}

/// A number of a version is the one that it is written with, where it fits in a byte.
pub proof fn lemma_version_numbers(n: u8)
    ensures
        version_byte(decimal(n as nat)) == n,
{
    lemma_leading(n as nat, 0);
}

proof fn lemma_leading(n: nat, so_far: nat)
    ensures
        n < 10 ==> leading_number(decimal(n), so_far) == so_far * 10 + n,
        10 <= n < 100 ==> leading_number(decimal(n), so_far) == so_far * 100 + n,
        100 <= n < 1000 ==> leading_number(decimal(n), so_far) == so_far * 1000 + n,
{
    reveal_with_fuel(decimal, 3);
    reveal_with_fuel(leading_number, 4);
    let s = decimal(n);
    if n < 10 {
        assert(s.skip(1).len() == 0);
    } else if n < 100 {
        assert(s =~= seq![digit_char(n / 10), digit_char(n % 10)]);
        assert(s.skip(1) =~= seq![digit_char(n % 10)]);
        assert(s.skip(1).skip(1).len() == 0);
    } else if n < 1000 {
        assert(s =~= seq![digit_char(n / 100), digit_char(n / 10 % 10), digit_char(n % 10)]);
        assert(s.skip(1) =~= seq![digit_char(n / 10 % 10), digit_char(n % 10)]);
        assert(s.skip(1).skip(1) =~= seq![digit_char(n % 10)]);
        assert(s.skip(1).skip(1).skip(1).len() == 0);
    }
}

} // verus!
