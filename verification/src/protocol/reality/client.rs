//! Configuration of the REALITY client, the hook that seals the session id, and the
//! authentication that takes the place of the certificate chain.

use super::wire::{
    auth_key_of, client_shared_secret, derive_auth_key, meta_bytes, proves, seal_session_id,
    sealed_hello, short_id_too_long, verify_ephemeral_certificate, SessionMeta, MAX_SHORT_ID_LEN,
};
use super::{client_version, config, RealityError, RealityFault, Result};
use crate::crypto::{base64_bytes, base64_decode, x25519_of};
use crate::json::{entry, entries_view, find_entry, Json, JsonView};
use crate::protocol::tls13::client::{ClientHelloDraft, ClientHelloHook, ServerAuth};
use crate::protocol::tls13::fingerprint::{fingerprint_named, Fingerprint, FingerprintView};
use crate::protocol::tls13::{certificate, Result as TlsResult, Tls13Error, TlsFault};
use crate::text::{
    chars_of, decimal, hex_digit, hex_value, owned, push_decimal, string_of, trim, trimmed,
};
use crate::wire::array32;
use crate::x509::{LeafCertificate, LeafView};
use vstd::prelude::*;
use vstd::string::*;
use vstd::utf8::encode_utf8;

verus! {

/// Settings of a REALITY client.
#[derive(Debug)]
pub struct RealityClientOptions {
    /// The server's static X25519 public key.
    pub public_key: [u8; 32],
    /// Short id, at most eight bytes.
    pub short_id: Vec<u8>,
    /// Name of the decoy.
    pub server_name: String,
    /// Shape of the `ClientHello`.
    pub fingerprint: Fingerprint,
    /// Accepted and not used: no crawling is done.
    pub spider_x: Option<String>,
}

/// Settings as a mathematical value.
#[verifier::ext_equal]
pub struct OptionsView {
    pub public_key: Seq<u8>,
    pub short_id: Seq<u8>,
    pub server_name: Seq<char>,
    pub fingerprint: FingerprintView,
    pub spider_x: Option<Seq<char>>,
}

impl View for RealityClientOptions {
    type V = OptionsView;

    open spec fn view(&self) -> OptionsView {
        OptionsView {
            public_key: self.public_key@,
            short_id: self.short_id@,
            server_name: self.server_name@,
            fingerprint: self.fingerprint@,
            spider_x: match self.spider_x {
                None => None,
                Some(s) => Some(s@),
            },
        }
    }
}

// ---------------------------------------------------------------------------
// Hexadecimal
// ---------------------------------------------------------------------------

/// Why a text is not hexadecimal.
#[derive(Debug, Clone, Copy, PartialEq, Eq, Structural)]
pub enum HexError {
    /// The number of digits is odd.
    OddLength,
    /// A character is not a digit.
    InvalidDigit,
}

impl HexError {
    pub open spec fn name(self) -> Seq<char> {
        match self {
            HexError::OddLength => "OddLength"@,
            HexError::InvalidDigit => "InvalidDigit"@,
        }
    }

    fn to_name(self) -> (r: &'static str)
        ensures
            r@ == self.name(),
    {
        match self {
            HexError::OddLength => "OddLength",
            HexError::InvalidDigit => "InvalidDigit",
        }
    }
}

/// Whether every byte is a hexadecimal digit.
pub open spec fn all_hex(s: Seq<u8>) -> bool {
    forall|i: int| 0 <= i < s.len() ==> hex_value(#[trigger] s[i]) is Some
}

/// The bytes that pairs of digits spell.
pub open spec fn hex_pairs(s: Seq<u8>) -> Seq<u8> {
    Seq::new(
        s.len() / 2,
        |i: int| (hex_value(s[2 * i])->Some_0 * 16 + hex_value(s[2 * i + 1])->Some_0) as u8,
    )
}

/// The bytes that a hexadecimal text spells.
pub open spec fn hex_bytes(s: Seq<u8>) -> core::result::Result<Seq<u8>, HexError> {
    if s.len() % 2 != 0 {
        Err(HexError::OddLength)
    } else if !all_hex(s) {
        Err(HexError::InvalidDigit)
    } else {
        Ok(hex_pairs(s))
    }
}

/// Decode hexadecimal digits, in either case.
pub fn hex_decode(s: &[u8]) -> (r: core::result::Result<Vec<u8>, HexError>)
    ensures
        match hex_bytes(s@) {
            Ok(b) => r is Ok && r->Ok_0@ == b,
            Err(e) => r == Err::<Vec<u8>, HexError>(e),
        },
{
    if s.len() % 2 != 0 {
        return Err(HexError::OddLength);
    }
    let mut out: Vec<u8> = Vec::new();
    let mut i: usize = 0;
    while i < s.len() / 2
        invariant
            i <= s.len() / 2,
            s.len() % 2 == 0,
            out@.len() == i,
            forall|j: int| 0 <= j < 2 * i ==> hex_value(#[trigger] s@[j]) is Some,
            forall|j: int| 0 <= j < i ==> out@[j] == hex_pairs(s@)[j],
        decreases s.len() / 2 - i,
    {
        let hi = hex_digit(s[2 * i]);
        let lo = hex_digit(s[2 * i + 1]);
        match (hi, lo) {
            (Some(h), Some(l)) => {
                out.push(h * 16 + l);
            },
            _ => {
                return Err(HexError::InvalidDigit);
            },
        }
        i = i + 1;
    }
    proof {
        assert(out@ =~= hex_pairs(s@));
    }
    Ok(out)
}

// ---------------------------------------------------------------------------
// Options
// ---------------------------------------------------------------------------

/// The value under the first of two keys that is present.
pub open spec fn either(opts: Seq<(Seq<char>, JsonView)>, a: Seq<char>, b: Seq<char>) -> Option<
    JsonView,
> {
    match entry(opts, a) {
        Some(v) => Some(v),
        None => entry(opts, b),
    }
}

fn get_either<'a>(opts: &'a Vec<(String, Json)>, a: &str, b: &str) -> (r: Option<&'a Json>)
    ensures
        match either(entries_view(opts@), a@, b@) {
            None => r is None,
            Some(v) => r is Some && r->Some_0@ == v,
        },
{
    match find_entry(opts, a) {
        Some(v) => Some(v),
        None => find_entry(opts, b),
    }
}

/// The text under a value, where it is there and one.
pub open spec fn text_of(v: Option<JsonView>) -> Option<Seq<char>> {
    match v {
        None => None,
        Some(v) => v.as_str(),
    }
}

fn get_text<'a>(v: Option<&'a Json>, Ghost(view): Ghost<Option<JsonView>>) -> (r: Option<&'a str>)
    requires
        match view {
            None => v is None,
            Some(w) => v is Some && v->Some_0@ == w,
        },
    ensures
        match text_of(view) {
            None => r is None,
            Some(s) => r is Some && r->Some_0@ == s,
        },
{
    match v {
        None => None,
        Some(v) => v.as_str(),
    }
}

/// The text under a value, where there is one; a value that is no text is an error.
pub open spec fn text_or_fault(v: Option<JsonView>, fault: Seq<char>) -> core::result::Result<
    Option<Seq<char>>,
    RealityFault,
> {
    match v {
        None => Ok(None),
        Some(v) => match v.as_str() {
            None => Err(RealityFault::Config(fault)),
            Some(s) => Ok(Some(s)),
        },
    }
}

fn take_text<'a>(v: Option<&'a Json>, fault: &str, Ghost(view): Ghost<Option<JsonView>>) -> (r: Result<
    Option<&'a str>,
>)
    requires
        match view {
            None => v is None,
            Some(w) => v is Some && v->Some_0@ == w,
        },
    ensures
        match text_or_fault(view, fault@) {
            Err(f) => r is Err && r->Err_0@ == f,
            Ok(None) => r is Ok && r->Ok_0 is None,
            Ok(Some(s)) => r is Ok && r->Ok_0 is Some && r->Ok_0->Some_0@ == s,
        },
{
    match v {
        None => Ok(None),
        Some(v) => match v.as_str() {
            None => Err(config(fault)),
            Some(s) => Ok(Some(s)),
        },
    }
}

/// The key that a text spells: 64 hexadecimal digits, or base64.
pub open spec fn public_key_of(text: Seq<char>) -> core::result::Result<Seq<u8>, RealityFault> {
    let raw = encode_utf8(trimmed(text));
    let bytes = if raw.len() == 64 && all_hex(raw) {
        Ok::<Seq<u8>, RealityFault>(hex_pairs(raw))
    } else {
        match base64_bytes(trimmed(text)) {
            Some(b) => Ok(b),
            None => Err(RealityFault::Config("'public-key' is not valid base64"@)),
        }
    };
    match bytes {
        Err(f) => Err(f),
        Ok(b) => if b.len() != 32 {
            Err(
                RealityFault::Config(
                    "'public-key' must decode to 32 bytes, got "@ + decimal(b.len()),
                ),
            )
        } else {
            Ok(b)
        },
    }
}

fn is_hex(s: &[u8]) -> (r: bool)
    ensures
        r == all_hex(s@),
{
    let mut i: usize = 0;
    while i < s.len()
        invariant
            i <= s.len(),
            forall|j: int| 0 <= j < i ==> hex_value(#[trigger] s@[j]) is Some,
        decreases s.len() - i,
    {
        if hex_digit(s[i]).is_none() {
            return false;
        }
        i = i + 1;
    }
    true
}

/// Decode a public key.
pub fn decode_public_key(text: &str) -> (r: Result<[u8; 32]>)
    ensures
        match public_key_of(text@) {
            Ok(k) => r is Ok && r->Ok_0@ == k,
            Err(f) => r is Err && r->Err_0@ == f,
        },
{
    let t = string_of(&trim(&chars_of(text)));
    let raw = t.as_str().as_bytes();
    let bytes = if raw.len() == 64 && is_hex(raw) {
        match hex_decode(raw) {
            Ok(b) => b,
            Err(_) => Vec::new(),
        }
    } else {
        match base64_decode(t.as_str()) {
            Some(b) => b,
            None => return Err(config("'public-key' is not valid base64")),
        }
    };
    if bytes.len() != 32 {
        let mut m = owned("'public-key' must decode to 32 bytes, got ");
        push_decimal(&mut m, bytes.len() as u64);
        return Err(RealityError::Config(m));
    }
    Ok(array32(&bytes))
}

/// The short id that the options hold.
pub open spec fn short_id_of(v: Option<JsonView>) -> core::result::Result<Seq<u8>, RealityFault> {
    match v {
        None => Ok(Seq::empty()),
        Some(v) => match v.as_str() {
            None => Err(RealityFault::Config("'short-id' must be a string"@)),
            Some(s) => match hex_bytes(encode_utf8(s)) {
                Err(e) => Err(
                    RealityFault::Config("'short-id' is not valid hex: "@ + e.name()),
                ),
                Ok(b) => if b.len() > 8 {
                    Err(
                        RealityFault::Config(
                            "'short-id' decodes to "@ + decimal(b.len())
                                + " bytes; the limit is 8"@,
                        ),
                    )
                } else {
                    Ok(b)
                },
            },
        },
    }
}

/// The name of the decoy: the options', or else the outbound's own.
pub open spec fn server_name_of(v: Option<JsonView>, fallback: Seq<char>) -> core::result::Result<
    Seq<char>,
    RealityFault,
> {
    match text_or_fault(v, "'server-name' must be a string"@) {
        Err(f) => Err(f),
        Ok(Some(s)) if trimmed(s).len() > 0 => Ok(trimmed(s)),
        _ => if trimmed(fallback).len() > 0 {
            Ok(trimmed(fallback))
        } else {
            Err(RealityFault::Config("missing 'server-name' (the decoy SNI the server offers)"@))
        },
    }
}

/// The shape that the options ask for: Chrome's where they say nothing.
pub open spec fn shape_of(v: Option<JsonView>) -> core::result::Result<
    FingerprintView,
    RealityFault,
> {
    match text_or_fault(v, "'fingerprint' must be a string"@) {
        Err(f) => Err(f),
        Ok(Some(s)) if trimmed(s).len() > 0 => match fingerprint_named(s) {
            Ok(f) => Ok(f),
            Err(e) => Err(RealityFault::Config(e.text())),
        },
        _ => Ok(FingerprintView::Chrome),
    }
}

/// What is wrong with the options beyond the first checks: post-quantum verification is
/// asked for, which is not implemented.
pub open spec fn mldsa_fault(v: Option<JsonView>) -> Option<RealityFault> {
    match text_or_fault(v, "'mldsa65-verify' must be a string"@) {
        Err(f) => Some(f),
        Ok(Some(s)) if trimmed(s).len() > 0 => Some(
            RealityFault::Unsupported(
                "'mldsa65-verify' is set ("@ + decimal(encode_utf8(s).len())
                    + " bytes) but ML-DSA-65 verification is not implemented"@,
            ),
        ),
        _ => None,
    }
}

/// The settings in an outbound's options, or the first thing that is wrong with them.
pub open spec fn options_of(opts: Seq<(Seq<char>, JsonView)>, default_name: Seq<char>) ->
    core::result::Result<OptionsView, RealityFault> {
    let key = match entry(opts, "public-key"@) {
        Some(v) => Some(v),
        None => either(opts, "public_key"@, "password"@),
    };
    let name = match entry(opts, "server-name"@) {
        Some(v) => Some(v),
        None => either(opts, "server_name"@, "sni"@),
    };
    let spider = text_or_fault(
        either(opts, "spider-x"@, "spider_x"@),
        "'spider-x' must be a string"@,
    );
    match text_of(key) {
        None => Err(
            RealityFault::Config("missing 'public-key' (the server's X25519 public key)"@),
        ),
        Some(k) => match public_key_of(k) {
            Err(f) => Err(f),
            Ok(public_key) => match short_id_of(either(opts, "short-id"@, "short_id"@)) {
                Err(f) => Err(f),
                Ok(short_id) => match server_name_of(name, default_name) {
                    Err(f) => Err(f),
                    Ok(server_name) => match shape_of(entry(opts, "fingerprint"@)) {
                        Err(f) => Err(f),
                        Ok(fingerprint) => match mldsa_fault(
                            either(opts, "mldsa65-verify"@, "mldsa65_verify"@),
                        ) {
                            Some(f) => Err(f),
                            None => match spider {
                                Err(f) => Err(f),
                                Ok(spider_x) => Ok(
                                    OptionsView {
                                        public_key,
                                        short_id,
                                        server_name,
                                        fingerprint,
                                        spider_x,
                                    },
                                ),
                            },
                        },
                    },
                },
            },
        },
    }
}

fn parse_short_id(v: Option<&Json>, Ghost(view): Ghost<Option<JsonView>>) -> (r: Result<Vec<u8>>)
    requires
        match view {
            None => v is None,
            Some(w) => v is Some && v->Some_0@ == w,
        },
    ensures
        match short_id_of(view) {
            Ok(b) => r is Ok && r->Ok_0@ == b,
            Err(f) => r is Err && r->Err_0@ == f,
        },
{
    let v = match v {
        None => return Ok(Vec::new()),
        Some(v) => v,
    };
    let hex = match v.as_str() {
        None => return Err(config("'short-id' must be a string")),
        Some(s) => s,
    };
    let bytes = match hex_decode(hex.as_bytes()) {
        Err(e) => {
            let mut m = owned("'short-id' is not valid hex: ");
            m.append(e.to_name());
            return Err(RealityError::Config(m));
        },
        Ok(b) => b,
    };
    if bytes.len() > MAX_SHORT_ID_LEN {
        let mut m = owned("'short-id' decodes to ");
        push_decimal(&mut m, bytes.len() as u64);
        m.append(" bytes; the limit is 8");
        return Err(RealityError::Config(m));
    }
    Ok(bytes)
}

fn parse_server_name(
    v: Option<&Json>,
    fallback: &str,
    Ghost(view): Ghost<Option<JsonView>>,
) -> (r: Result<String>)
    requires
        match view {
            None => v is None,
            Some(w) => v is Some && v->Some_0@ == w,
        },
    ensures
        match server_name_of(view, fallback@) {
            Ok(s) => r is Ok && r->Ok_0@ == s,
            Err(f) => r is Err && r->Err_0@ == f,
        },
{
    match take_text(v, "'server-name' must be a string", Ghost(view)) {
        Err(e) => return Err(e),
        Ok(None) => {},
        Ok(Some(s)) => {
            let t = trim(&chars_of(s));
            if t.len() > 0 {
                return Ok(string_of(&t));
            }
        },
    }
    let t = trim(&chars_of(fallback));
    if t.len() > 0 {
        return Ok(string_of(&t));
    }
    Err(config("missing 'server-name' (the decoy SNI the server offers)"))
}

fn parse_shape(v: Option<&Json>, Ghost(view): Ghost<Option<JsonView>>) -> (r: Result<Fingerprint>)
    requires
        match view {
            None => v is None,
            Some(w) => v is Some && v->Some_0@ == w,
        },
    ensures
        match shape_of(view) {
            Ok(f) => r is Ok && r->Ok_0@ == f,
            Err(f) => r is Err && r->Err_0@ == f,
        },
{
    match take_text(v, "'fingerprint' must be a string", Ghost(view)) {
        Err(e) => Err(e),
        Ok(None) => Ok(Fingerprint::Chrome),
        Ok(Some(s)) => {
            if trim(&chars_of(s)).len() > 0 {
                return match Fingerprint::parse(s) {
                    Ok(f) => Ok(f),
                    Err(e) => Err(RealityError::Config(e.message())),
                };
            }
            Ok(Fingerprint::Chrome)
        },
    }
}

fn check_mldsa(v: Option<&Json>, Ghost(view): Ghost<Option<JsonView>>) -> (r: Option<RealityError>)
    requires
        match view {
            None => v is None,
            Some(w) => v is Some && v->Some_0@ == w,
        },
    ensures
        match mldsa_fault(view) {
            None => r is None,
            Some(f) => r is Some && r->Some_0@ == f,
        },
{
    match take_text(v, "'mldsa65-verify' must be a string", Ghost(view)) {
        Err(e) => Some(e),
        Ok(None) => None,
        Ok(Some(text)) => {
            if trim(&chars_of(text)).len() > 0 {
                let mut m = owned("'mldsa65-verify' is set (");
                push_decimal(&mut m, text.as_bytes().len() as u64);
                m.append(" bytes) but ML-DSA-65 verification is not implemented");
                return Some(RealityError::Unsupported(m));
            }
            None
        },
    }
}

impl RealityClientOptions {
    /// Read the settings out of an outbound's options. Whatever is missing or malformed
    /// is an error that names the field; nothing weakens authentication silently.
    pub fn from_options(options: &Vec<(String, Json)>, default_server_name: &str) -> (r: Result<Self>)
        ensures
            match options_of(entries_view(options@), default_server_name@) {
                Ok(o) => r is Ok && r->Ok_0@ == o,
                Err(f) => r is Err && r->Err_0@ == f,
            },
    {
        let ghost opts = entries_view(options@);
        let key = match find_entry(options, "public-key") {
            Some(v) => Some(v),
            None => get_either(options, "public_key", "password"),
        };
        let ghost key_view = match entry(opts, "public-key"@) {
            Some(v) => Some(v),
            None => either(opts, "public_key"@, "password"@),
        };
        let public_key = match get_text(key, Ghost(key_view)) {
            None => return Err(config("missing 'public-key' (the server's X25519 public key)")),
            Some(text) => match decode_public_key(text) {
                Ok(k) => k,
                Err(e) => return Err(e),
            },
        };
        let short_id = match parse_short_id(
            get_either(options, "short-id", "short_id"),
            Ghost(either(opts, "short-id"@, "short_id"@)),
        ) {
            Ok(s) => s,
            Err(e) => return Err(e),
        };
        let name = match find_entry(options, "server-name") {
            Some(v) => Some(v),
            None => get_either(options, "server_name", "sni"),
        };
        let ghost name_view = match entry(opts, "server-name"@) {
            Some(v) => Some(v),
            None => either(opts, "server_name"@, "sni"@),
        };
        let server_name = match parse_server_name(name, default_server_name, Ghost(name_view)) {
            Ok(s) => s,
            Err(e) => return Err(e),
        };
        let fingerprint = match parse_shape(
            find_entry(options, "fingerprint"),
            Ghost(entry(opts, "fingerprint"@)),
        ) {
            Ok(f) => f,
            Err(e) => return Err(e),
        };
        match check_mldsa(
            get_either(options, "mldsa65-verify", "mldsa65_verify"),
            Ghost(either(opts, "mldsa65-verify"@, "mldsa65_verify"@)),
        ) {
            Some(e) => return Err(e),
            None => {},
        }
        let spider_x = match take_text(
            get_either(options, "spider-x", "spider_x"),
            "'spider-x' must be a string",
            Ghost(either(opts, "spider-x"@, "spider_x"@)),
        ) {
            Err(e) => return Err(e),
            Ok(None) => None,
            Ok(Some(s)) => Some(owned(s)),
        };
        Ok(RealityClientOptions { public_key, short_id, server_name, fingerprint, spider_x })
    }
}

// ---------------------------------------------------------------------------
// The handshake
// ---------------------------------------------------------------------------

/// Seals the session id into the assembled `ClientHello`.
pub struct RealityHook {
    pub server_public: [u8; 32],
    pub short_id: Vec<u8>,
    /// Unix time in seconds.
    pub now: u32,
    /// The authentication key, once the session id is sealed.
    pub auth_key: Option<[u8; 32]>,
}

impl RealityHook {
    /// A hook that has sealed nothing yet.
    pub fn new(server_public: [u8; 32], short_id: Vec<u8>, now: u32) -> (h: Self)
        ensures
            h.server_public == server_public,
            h.short_id@ == short_id@,
            h.now == now,
            h.auth_key is None,
    {
        RealityHook { server_public, short_id, now, auth_key: None }
    }

    /// The authentication that checks the proof for the sealed session id.
    pub fn auth(&self) -> (a: RealityAuth)
        ensures
            a.auth_key == self.auth_key,
    {
        RealityAuth { auth_key: self.auth_key }
    }
}

impl ClientHelloHook for RealityHook {
    fn on_client_hello(&mut self, draft: &mut ClientHelloDraft) -> (r: TlsResult<()>)
        ensures
            final(self).server_public == old(self).server_public,
            final(self).short_id == old(self).short_id,
            final(self).now == old(self).now,
            *final(draft) == (ClientHelloDraft { raw: final(draft).raw, ..*old(draft) }),
            old(draft).raw@.len() < 71 ==> r is Err && r->Err_0@
                == super::wire::hello_too_short().tls(),
            old(draft).raw@.len() >= 71 && old(self).short_id@.len() > 8 ==> r is Err
                && r->Err_0@ == short_id_too_long(old(self).short_id@.len()).tls(),
            r is Err ==> final(self).auth_key == old(self).auth_key && final(draft).raw@
                == old(draft).raw@,
            old(draft).raw@.len() >= 71 && old(self).short_id@.len() <= 8 ==> {
                let key = auth_key_of(
                    x25519_of(old(draft).key_share_private@, old(self).server_public@),
                    old(draft).random@,
                );
                &&& r is Ok
                &&& final(self).auth_key is Some
                &&& final(self).auth_key->Some_0@ == key
                &&& final(draft).raw@ == sealed_hello(
                    key,
                    old(draft).random@,
                    old(draft).raw@,
                    meta_bytes(seq![0u8, 2u8, 0u8], old(self).now, old(self).short_id@),
                )
            },
    {
        let shared = client_shared_secret(&draft.key_share_private, &self.server_public);
        let auth_key = derive_auth_key(&shared, &draft.random);
        let n: usize = self.short_id.len();
        let meta = SessionMeta {
            version: client_version(),
            timestamp: self.now,
            short_id_len: (n % 256) as u8,
        };
        match seal_session_id(
            &auth_key,
            &draft.random,
            draft.raw.as_mut_slice(),
            &meta,
            &self.short_id,
        ) {
            Ok(_) => {},
            Err(e) => return Err(e.into_tls()),
        }
        self.auth_key = Some(auth_key);
        Ok(())
    }
}

/// Accepts the certificate that carries the proof.
pub struct RealityAuth {
    pub auth_key: Option<[u8; 32]>,
}

/// The verdict of [`RealityAuth`].
pub open spec fn reality_verdict(auth_key: Option<[u8; 32]>, leaf: LeafView) -> Option<TlsFault> {
    match auth_key {
        None => Some(
            TlsFault::Certificate(
                "REALITY: certificate received before the session id was sealed"@,
            ),
        ),
        Some(key) => if proves(key@, leaf.key, leaf.signature) {
            None
        } else {
            Some(
                TlsFault::Certificate(
                    "REALITY fallback: the server presented a real certificate, so this session was not authenticated by the configured public key (rejection, redirection, or a man in the middle)"@,
                ),
            )
        },
    }
}

impl ServerAuth for RealityAuth {
    open spec fn states_verdict(&self) -> bool {
        true
    }

    open spec fn verdict(&self, leaf_der: Seq<u8>, leaf: LeafView, chain: Seq<Seq<u8>>) -> Option<
        TlsFault,
    > {
        reality_verdict(self.auth_key, leaf)
    }

    fn verify_certificate(
        &mut self,
        leaf_der: &[u8],
        leaf: &LeafCertificate,
        chain: &[Vec<u8>],
    ) -> (r: TlsResult<()>) {
        match self.auth_key {
            None => Err(
                certificate("REALITY: certificate received before the session id was sealed"),
            ),
            Some(key) => if verify_ephemeral_certificate(&key, &leaf.key, &leaf.signature) {
                Ok(())
            } else {
                Err(
                    certificate(
                        "REALITY fallback: the server presented a real certificate, so this session was not authenticated by the configured public key (rejection, redirection, or a man in the middle)",
                    ),
                )
            },
        }
    }
}

/// The REALITY error for a failed handshake.
pub open spec fn connect_fault(f: TlsFault) -> RealityFault {
    match f {
        TlsFault::Certificate(m) => RealityFault::Fallback(m),
        other => RealityFault::Wire(other.text()),
    }
}

/// The REALITY error for a failed handshake: a certificate error is a fallback.
pub fn connect_error(e: Tls13Error) -> (r: RealityError)
    ensures
        r@ == connect_fault(e@),
{
    let text = e.message();
    match e {
        Tls13Error::Certificate(m) => RealityError::Fallback(m),
        _ => RealityError::Wire(text),
    }
}

} // verus!
