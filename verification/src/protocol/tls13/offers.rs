//! What a `ClientHello` offers, whatever shape it wears, and that the client holds the server
//! to what was offered.

use super::client::{offered_schemes, sent_session_id};
use super::codec::first_ext;
use super::fingerprint::{
    alpn_body, alpn_names, ext_body, fingerprint_named, grease_at, greased_list, hello_ciphers,
    hello_exts, hello_head, hello_of, len16, len8, sni_body, stream_byte, u16s_bytes,
    FingerprintView, HelloInput, ProfileView,
};
use super::schemes::share_bytes;
use super::TlsFault;
use crate::protocol::transport::tls::TlsFingerprint;
use crate::text::{is_white, lower, trimmed};
use crate::wire::{be_bytes, be_value, lemma_be_bytes_len, lemma_be_round_trip, lemma_pow256};
use vstd::prelude::*;
use vstd::string::*;
use vstd::utf8::encode_utf8;

verus! {

/// Reserved values are drawn from the sixteen of RFC 8701: both bytes alike, each ending
/// with ten.
pub proof fn lemma_reserved_values(seed: Seq<u8>, k: nat)
    ensures
        grease_at(seed, k) / 256 == grease_at(seed, k) % 256,
        grease_at(seed, k) % 16 == 10,
{
    let n = (stream_byte(seed, k) % 16) as int;
    assert(((n * 16 + 10) * 257) as u16 == (n * 16 + 10) * 257);
}

/// What each extension says, by its number. The name of the server, the protocols, the
/// groups, the schemes and the versions stand in lists of their own, and the share is the
/// client's public key for X25519.
pub proof fn lemma_extension_bodies(h: HelloInput, p: ProfileView, g: u16)
    requires
        h.server_name.len() > 0,
    ensures
        ext_body(h, p, 0x00, g) == Some(sni_body(h.server_name)),
        ext_body(h, p, 0x0a, g) == Some(len16(be_bytes(g as nat, 2) + u16s_bytes(p.groups))),
        ext_body(h, p, 0x0b, g) == Some(len8(p.point_formats)),
        ext_body(h, p, 0x0d, g) == Some(len16(u16s_bytes(p.signature_algorithms))),
        h.alpn.len() > 0 && alpn_names(h.alpn).len() > 0 ==> ext_body(h, p, 0x10, g) == Some(
            len16(alpn_names(h.alpn)),
        ),
        h.alpn.len() == 0 && p.alpn.len() == 0 ==> ext_body(h, p, 0x10, g) is None,
        ext_body(h, p, 0x2b, g) == Some(
            len8(be_bytes(g as nat, 2) + u16s_bytes(p.supported_versions)),
        ),
        h.key_share.len() == 32 ==> ext_body(h, p, 0x33, g) == Some(
            len16(be_bytes(g as nat, 2) + be_bytes(0, 2) + share_bytes(0x1d, h.key_share)),
        ),
        ext_body(h, p, 0x15, g) is None,
        ext_body(h, p, 0x1b, g) is None,
        ext_body(h, p, 0x4469, g) is None,
        ext_body(h, p, 0x17, g) == Some(Seq::<u8>::empty()),
        ext_body(h, p, 0xff01, g) == Some(seq![0u8]),
{
    lemma_be_bytes_len(alpn_names(h.alpn).len(), 2);
}

/// The name of the server is read from its extension.
pub proof fn lemma_name_in_list(name: Seq<char>)
    requires
        encode_utf8(name).len() < 0x1000,
    ensures
        ({
            let body = sni_body(name);
            let n = encode_utf8(name).len();
            &&& body.len() == 5 + n
            &&& be_value(body.subrange(0, 2)) == 3 + n
            &&& body[2] == 0
            &&& be_value(body.subrange(3, 5)) == n
            &&& body.skip(5) == encode_utf8(name)
        }),
{
    let raw = encode_utf8(name);
    let n = raw.len();
    let body = sni_body(name);
    lemma_pow256();
    lemma_be_round_trip(n, 2);
    lemma_be_round_trip(3 + n, 2);
    assert(body.subrange(0, 2) =~= be_bytes(3 + n, 2));
    assert(body.subrange(3, 5) =~= be_bytes(n, 2));
    assert(body.skip(5) =~= raw);
}

/// A hello without a shape offers TLS 1.3 alone, X25519 alone with the client's share of it,
/// and the three suites.
pub proof fn lemma_plain_hello(h: HelloInput)
    requires
        h.fingerprint is Off,
        h.server_name.len() > 0,
        h.key_share.len() == 32,
        h.alpn.len() == 0,
    ensures
        first_ext(hello_exts(h), 0x00) == Some(sni_body(h.server_name)),
        first_ext(hello_exts(h), 0x0a) == Some(seq![0u8, 2, 0, 0x1d]),
        first_ext(hello_exts(h), 0x2b) == Some(seq![2u8, 3, 4]),
        first_ext(hello_exts(h), 0x33) == Some(len16(share_bytes(0x1d, h.key_share))),
        first_ext(hello_exts(h), 0x10) is None,
        hello_ciphers(h) == seq![0x13u8, 1, 0x13, 2, 0x13, 3],
{
    let exts = hello_exts(h);
    assert(alpn_body(h.alpn, Seq::empty()).len() == 0);
    assert(exts.len() == 5);
    assert(exts[0].0 == 0x00 && exts[1].0 == 0x0a && exts[2].0 == 0x0d && exts[3].0 == 0x2b
        && exts[4].0 == 0x33);
    reveal_with_fuel(first_ext, 6);
    assert(exts.skip(1).skip(1) =~= exts.skip(2));
    assert(exts.skip(2).skip(1) =~= exts.skip(3));
    assert(exts.skip(3).skip(1) =~= exts.skip(4));
    assert(exts.skip(4).skip(1) =~= exts.skip(5));
    lemma_list_bytes();
}

proof fn lemma_list_bytes()
    ensures
        len16(greased_list(None, seq![0x1du16])) == seq![0u8, 2, 0, 0x1d],
        len8(greased_list(None, seq![0x0304u16])) == seq![2u8, 3, 4],
        greased_list(None, seq![0x1301u16, 0x1302, 0x1303]) == seq![0x13u8, 1, 0x13, 2, 0x13, 3],
{
    reveal_with_fuel(be_bytes, 3);
    reveal_with_fuel(u16s_bytes, 4);
    let a = seq![0x1du16];
    let b = seq![0x0304u16];
    let c = seq![0x1301u16, 0x1302, 0x1303];
    assert(a.drop_last() =~= Seq::empty() && b.drop_last() =~= Seq::empty());
    assert(c.drop_last() =~= seq![0x1301u16, 0x1302]);
    assert(c.drop_last().drop_last() =~= seq![0x1301u16]);
    assert(c.drop_last().drop_last().drop_last() =~= Seq::empty());
    assert(be_bytes(0x1d, 2) =~= seq![0u8, 0x1d]);
    assert(be_bytes(2, 2) =~= seq![0u8, 2]);
    assert(be_bytes(0x0304, 2) =~= seq![3u8, 4]);
    assert(be_bytes(0x1301, 2) =~= seq![0x13u8, 1]);
    assert(be_bytes(0x1302, 2) =~= seq![0x13u8, 2]);
    assert(be_bytes(0x1303, 2) =~= seq![0x13u8, 3]);
    assert(u16s_bytes(a) =~= seq![0u8, 0x1d]);
    assert(u16s_bytes(b) =~= seq![3u8, 4]);
    assert(u16s_bytes(c) =~= seq![0x13u8, 1, 0x13, 2, 0x13, 3]);
    assert(len16(greased_list(None, a)) =~= seq![0u8, 2, 0, 0x1d]);
    assert(len8(greased_list(None, b)) =~= seq![2u8, 3, 4]);
}

/// The server is held to the schemes that the hello lists.
pub proof fn lemma_schemes_kept(h: HelloInput, p: ProfileView, g: u16)
    ensures
        h.fingerprint.base() == Some(p) && p.signature_algorithms.len() > 0 ==> ext_body(
            h,
            p,
            0x0d,
            g,
        ) == Some(len16(u16s_bytes(offered_schemes(h.fingerprint)))),
        h.fingerprint is Off && h.server_name.len() > 0 && h.alpn.len() == 0 ==> first_ext(
            hello_exts(h),
            0x0d,
        ) == Some(len16(u16s_bytes(offered_schemes(h.fingerprint)))),
        h.fingerprint is Off ==> offered_schemes(h.fingerprint) == seq![
            0x0804u16,
            0x0403,
            0x0807,
        ],
{
    if h.fingerprint is Off && h.server_name.len() > 0 && h.alpn.len() == 0 {
        let exts = hello_exts(h);
        assert(alpn_body(h.alpn, Seq::empty()).len() == 0);
        assert(exts[0].0 == 0x00 && exts[1].0 == 0x0a && exts[2].0 == 0x0d);
        reveal_with_fuel(first_ext, 4);
        assert(exts.skip(1).skip(1) =~= exts.skip(2));
    }
}

/// The session identifier that the server has to echo is the one in the hello.
pub proof fn lemma_session_id_sent(h: HelloInput)
    requires
        hello_of(h) is Ok,
        h.random.len() == 32,
        h.session_id.len() == 32,
    ensures
        sent_session_id(hello_of(h)->Ok_0) == h.session_id,
        hello_of(h)->Ok_0.subrange(6, 38) == h.random,
        hello_of(h)->Ok_0[0] == 1,
        hello_of(h)->Ok_0[38] == 32,
{
    let hello = hello_of(h)->Ok_0;
    let body = hello_head(h) + len16(super::fingerprint::hello_ext_bytes(h));
    lemma_be_bytes_len(body.len(), 3);
    lemma_be_bytes_len(hello_ciphers(h).len(), 2);
    assert(hello.subrange(39, 71) =~= h.session_id);
    assert(hello.subrange(6, 38) =~= h.random);
}

/// The names under which shapes are known, their case and the space around them aside. No
/// other browser is claimed to be shipped.
pub proof fn lemma_shape_names(text: Seq<char>, name: Seq<char>)
    requires
        lower(trimmed(text)) == name,
    ensures
        name == "off"@ || name == "none"@ || name == ""@ ==> fingerprint_named(text) == Ok::<
            FingerprintView,
            TlsFault,
        >(FingerprintView::Off),
        name == "chrome"@ || name == "chromium"@ ==> fingerprint_named(text) == Ok::<
            FingerprintView,
            TlsFault,
        >(FingerprintView::Chrome),
        name == "random"@ || name == "randomized"@ ==> fingerprint_named(text) == Ok::<
            FingerprintView,
            TlsFault,
        >(FingerprintView::Randomized),
        name == "firefox"@ || name == "safari"@ || name == "edge"@ || name == "ios"@ || name
            == "android"@ ==> fingerprint_named(text) is Err,
{
    lemma_shape_words();
}

proof fn lemma_shape_words()
    ensures
        ""@.len() == 0,
        "off"@.len() == 3 && "off"@[0] == 'o',
        "none"@.len() == 4 && "none"@[0] == 'n',
        "chrome"@.len() == 6 && "chrome"@[0] == 'c',
        "chromium"@.len() == 8,
        "random"@.len() == 6 && "random"@[0] == 'r',
        "randomized"@.len() == 10,
        "firefox"@.len() == 7 && "firefox"@[0] == 'f',
        "safari"@.len() == 6 && "safari"@[0] == 's',
        "edge"@.len() == 4 && "edge"@[0] == 'e',
        "ios"@.len() == 3 && "ios"@[0] == 'i',
        "android"@.len() == 7 && "android"@[0] == 'a',
{
    reveal_strlit("");
    reveal_strlit("off");
    reveal_strlit("none");
    reveal_strlit("chrome");
    reveal_strlit("chromium");
    reveal_strlit("random");
    reveal_strlit("randomized");
    reveal_strlit("firefox");
    reveal_strlit("safari");
    reveal_strlit("edge");
    reveal_strlit("ios");
    reveal_strlit("android");
}

/// The transport's shapes are those of the hello by their names: none, Chrome's and a random
/// one are shipped, and the others are refused rather than faked.
pub proof fn lemma_transport_shapes()
    ensures
        fingerprint_named(TlsFingerprint::Plain.name()) == Ok::<FingerprintView, TlsFault>(
            FingerprintView::Off,
        ),
        fingerprint_named(TlsFingerprint::Chrome.name()) == Ok::<FingerprintView, TlsFault>(
            FingerprintView::Chrome,
        ),
        fingerprint_named(TlsFingerprint::Random.name()) == Ok::<FingerprintView, TlsFault>(
            FingerprintView::Randomized,
        ),
        fingerprint_named(TlsFingerprint::Firefox.name()) is Err,
        fingerprint_named(TlsFingerprint::Safari.name()) is Err,
        fingerprint_named(TlsFingerprint::Ios.name()) is Err,
        fingerprint_named(TlsFingerprint::Android.name()) is Err,
        fingerprint_named(TlsFingerprint::Edge.name()) is Err,
{
    lemma_lower_words();
    lemma_shape_names("none"@, "none"@);
    lemma_shape_names("chrome"@, "chrome"@);
    lemma_shape_names("random"@, "random"@);
    lemma_shape_names("firefox"@, "firefox"@);
    lemma_shape_names("safari"@, "safari"@);
    lemma_shape_names("ios"@, "ios"@);
    lemma_shape_names("android"@, "android"@);
    lemma_shape_names("edge"@, "edge"@);
}

proof fn lemma_lower_words()
    ensures
        lower(trimmed("none"@)) == "none"@,
        lower(trimmed("chrome"@)) == "chrome"@,
        lower(trimmed("random"@)) == "random"@,
        lower(trimmed("firefox"@)) == "firefox"@,
        lower(trimmed("safari"@)) == "safari"@,
        lower(trimmed("ios"@)) == "ios"@,
        lower(trimmed("android"@)) == "android"@,
        lower(trimmed("edge"@)) == "edge"@,
{
    reveal_strlit("none");
    reveal_strlit("chrome");
    reveal_strlit("random");
    reveal_strlit("firefox");
    reveal_strlit("safari");
    reveal_strlit("ios");
    reveal_strlit("android");
    reveal_strlit("edge");
    lemma_small_letters("none"@);
    lemma_small_letters("chrome"@);
    lemma_small_letters("random"@);
    lemma_small_letters("firefox"@);
    lemma_small_letters("safari"@);
    lemma_small_letters("ios"@);
    lemma_small_letters("android"@);
    lemma_small_letters("edge"@);
}

proof fn lemma_small_letters(s: Seq<char>)
    requires
        s.len() > 0,
        forall|i: int| 0 <= i < s.len() ==> 'a' <= #[trigger] s[i] <= 'z',
    ensures
        lower(trimmed(s)) == s,
{
    assert(!is_white(s[0]) && !is_white(s[s.len() - 1]));
    assert(trimmed(s) == s);
    assert(lower(s) =~= s);
}

} // verus!
